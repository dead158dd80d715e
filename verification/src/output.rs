//! Listing a tree: every path with a short identifier.
//!
//! The caller walks the tree and hands over what it found. Each path gets a
//! code, the base-36 form of the BLAKE3 digest of the path as text. The codes
//! are put in order and cut to prefixes that tell them apart, and the lines
//! come out in path order, a directory before what it holds.

use vstd::prelude::*;
use vstd::slice::slice_subrange;
use vstd::utf8::encode_utf8;

use crate::apply::PathKind;
use crate::encode_rand::{base36, be_value, encode_256bit_base36};
use crate::paint::{paint, painted, Emphasis};
use crate::find_prefix::{
    global_len, individual_len, lemma_global_prefixes_unique, neighbour_need, resolves,
    shortest_len, shortest_unique_prefixes, sorted, string_texts, texts,
};
use crate::sort::{
    code_key, code_key_of, comes_first, is_sorted_order, key_seqs, lemma_code_key_order,
    lemma_sorted_order_unique, ordered, sorted_order,
};
use crate::text::{
    chars_of, is_whitespace, is_whitespace_char, push_char, push_spaces, push_text,
    spaces, string_of, trailing_ws,
};

verus! {

/// One path that the walk of a tree came by.
#[derive(Clone, Debug, PartialEq)]
pub struct Found {
    /// The path as text.
    pub path: String,
    /// Whether a directory is at the path.
    pub is_dir: bool,
}

/// One line of a listing, in its parts.
///
/// The identifier of the line is `individual` followed by `remainder`. The
/// first part is enough to tell the path from its neighbours and is what a
/// display should stress.
#[derive(Clone, Debug, PartialEq)]
pub struct ListingLine {
    pub individual: String,
    pub remainder: String,
    /// The path as shown: with `/` at the end if it is a directory.
    pub path: String,
}

/// What was found at one path, as plain values.
pub struct FoundView {
    pub path: Seq<char>,
    pub is_dir: bool,
}

/// A line of a listing as plain values.
pub struct ListingLineView {
    pub individual: Seq<char>,
    pub remainder: Seq<char>,
    pub path: Seq<char>,
}

impl View for Found {
    type V = FoundView;

    open spec fn view(&self) -> FoundView {
        FoundView { path: self.path@, is_dir: self.is_dir }
    }
}

impl View for ListingLine {
    type V = ListingLineView;

    open spec fn view(&self) -> ListingLineView {
        ListingLineView { individual: self.individual@, remainder: self.remainder@, path: self.path@ }
    }
}

/// What was found, as plain values.
pub open spec fn found_views(entries: Seq<Found>) -> Seq<FoundView> {
    Seq::new(entries.len(), |i: int| entries[i]@)
}

/// The lines, as plain values.
pub open spec fn line_views(lines: Seq<ListingLine>) -> Seq<ListingLineView> {
    Seq::new(lines.len(), |i: int| lines[i]@)
}

/// The BLAKE3 digest of a byte string: 32 bytes.
pub uninterp spec fn blake3_digest(input: Seq<u8>) -> Seq<u8>;

/// Trusted: stands for `blake3::hash` and `blake3::Hash::as_bytes`, the
/// default BLAKE3 hash of the input as its 32 raw bytes. The digest is a
/// function of the input alone, and it is only named here, not described.
#[verifier::external_body]
fn blake3_hash(input: &[u8]) -> (digest: [u8; 32])
    ensures
        digest@ == blake3_digest(input@),
{
    *blake3::hash(input).as_bytes()
}

/// The code of a path: the base-36 form of the digest of its UTF-8 text.
pub open spec fn path_code(path: Seq<char>) -> Seq<char> {
    base36(be_value(blake3_digest(encode_utf8(path))))
}

/// The code of `path`.
pub fn code_of(path: &str) -> (code: String)
    ensures
        code@ == path_code(path@),
{
    let digest = blake3_hash(path.as_bytes());
    encode_256bit_base36(&digest)
}

/// The key of a path in path order: `/` counts less than every other
/// character, so that a directory comes right before what it holds.
pub open spec fn path_key(path: Seq<char>) -> Seq<u32> {
    Seq::new(
        path.len(),
        |i: int|
            if path[i] == '/' {
                0u32
            } else {
                (path[i] as u32 + 1) as u32
            },
    )
}

/// Character codes end at `0x10FFFF`.
proof fn lemma_char_range(c: char)
    ensures
        c as u32 <= 0x10FFFF,
{
}

/// The key of `path` in path order.
pub fn path_key_of(path: &[char]) -> (key: Vec<u32>)
    ensures
        key@ == path_key(path@),
{
    let mut key: Vec<u32> = Vec::new();
    let mut i: usize = 0;
    while i < path.len()
        invariant
            i <= path.len(),
            key@ == path_key(path@.take(i as int)),
        decreases path.len() - i,
    {
        let c = path[i];
        if c == '/' {
            key.push(0);
        } else {
            proof {
                lemma_char_range(c);
            }
            key.push(c as u32 + 1);
        }
        i += 1;
        assert(key@ =~= path_key(path@.take(i as int)));
    }
    assert(path@.take(i as int) =~= path@);
    key
}

/// Whether the path, but for whitespace at its end, ends in `/`.
pub open spec fn ends_in_separator(path: Seq<char>) -> bool {
    let kept = path.len() - trailing_ws(path);
    kept > 0 && path[kept - 1] == '/'
}

/// The path as a listing shows it: a directory gets a `/` at the end unless
/// it has one.
pub open spec fn shown_path(entry: FoundView) -> Seq<char> {
    if entry.is_dir && !ends_in_separator(entry.path) {
        entry.path.push('/')
    } else {
        entry.path
    }
}

/// The path of `entry` as a listing shows it.
pub fn show_path(entry: &Found) -> (shown: String)
    ensures
        shown@ == shown_path(entry@),
{
    let chars = chars_of(entry.path.as_str());
    let mut kept: usize = chars.len();
    while kept > 0 && is_whitespace_char(chars[kept - 1])
        invariant
            kept <= chars.len(),
            forall|i: int| kept <= i < chars.len() ==> is_whitespace(#[trigger] chars@[i]),
        decreases kept,
    {
        kept -= 1;
    }
    proof {
        crate::text::lemma_trailing_ws(chars@, kept as int);
    }
    let mut shown = entry.path.clone();
    if entry.is_dir && !(kept > 0 && chars[kept - 1] == '/') {
        push_char(&mut shown, '/');
    }
    shown
}

/// The code keys of the entries, by position.
pub open spec fn code_keys(entries: Seq<FoundView>) -> Seq<Seq<u32>> {
    Seq::new(entries.len(), |i: int| code_key(path_code(entries[i].path)))
}

/// The order of the entries by code.
pub open spec fn by_code(entries: Seq<FoundView>) -> Seq<usize> {
    choose|order: Seq<usize>| is_sorted_order(code_keys(entries), order)
}

/// The entries in the order of their codes.
pub open spec fn in_code_order(entries: Seq<FoundView>) -> Seq<FoundView> {
    Seq::new(entries.len(), |p: int| entries[by_code(entries)[p] as int])
}

/// The codes of the entries.
pub open spec fn codes_of(entries: Seq<FoundView>) -> Seq<Seq<char>> {
    Seq::new(entries.len(), |p: int| path_code(entries[p].path))
}

/// The path keys of the entries, by position.
pub open spec fn path_keys(entries: Seq<FoundView>) -> Seq<Seq<u32>> {
    Seq::new(entries.len(), |i: int| path_key(entries[i].path))
}

/// The order of the entries by path.
pub open spec fn by_path(entries: Seq<FoundView>) -> Seq<usize> {
    choose|order: Seq<usize>| is_sorted_order(path_keys(entries), order)
}

/// The line of the entry at position `p` of entries that stand in code order.
///
/// Its identifier is the code cut to the global length. The individual part
/// is the code cut to its individual length, where that is no longer;
/// otherwise it is the whole identifier.
pub open spec fn line_of(arranged: Seq<FoundView>, p: int) -> ListingLineView {
    let values = codes_of(arranged);
    let len = global_len(values) as int;
    let own = individual_len(values, p) as int;
    let cut = if own <= len {
        own
    } else {
        len
    };
    ListingLineView {
        individual: values[p].take(cut),
        remainder: values[p].subrange(cut, len),
        path: shown_path(arranged[p]),
    }
}

/// The lines of a listing: one per entry, in path order, each with the
/// identifier that the order of the codes gives it.
pub open spec fn listing_lines(entries: Seq<FoundView>) -> Seq<ListingLineView> {
    let arranged = in_code_order(entries);
    Seq::new(entries.len(), |q: int| line_of(arranged, by_path(arranged)[q] as int))
}

/// The text of a line: identifier and path, set off by spaces and a colon.
pub open spec fn line_text(line: ListingLineView) -> Seq<char> {
    dressed_text(line, line.remainder)
}

/// The order computed for keys is the order chosen for them.
proof fn lemma_order_is_chosen(keys: Seq<Seq<u32>>, order: Seq<usize>)
    requires
        keys.len() <= usize::MAX,
        is_sorted_order(keys, order),
    ensures
        order == (choose|o: Seq<usize>| is_sorted_order(keys, o)),
{
    let chosen = choose|o: Seq<usize>| is_sorted_order(keys, o);
    lemma_sorted_order_unique(keys, order, chosen);
}

/// The codes of entries in code order stand in lexicographic order.
pub proof fn lemma_codes_sorted(entries: Seq<FoundView>)
    requires
        entries.len() <= usize::MAX,
        is_sorted_order(code_keys(entries), by_code(entries)),
    ensures
        sorted(codes_of(in_code_order(entries))),
{
    let order = by_code(entries);
    let keys = code_keys(entries);
    let values = codes_of(in_code_order(entries));
    assert forall|i: int, j: int| 0 <= i < j < values.len() implies crate::find_prefix::lex_le(
        #[trigger] values[i],
        #[trigger] values[j],
    ) by {
        assert(comes_first(keys, order[i] as int, order[j] as int));
        lemma_code_key_order(values[i], values[j]);
    }
}

/// The identifiers of a listing tell its lines apart: where the codes in
/// order need no more than the shortest code has, no two entries in code
/// order get the same identifier.
pub proof fn lemma_identifiers_unique(entries: Seq<FoundView>, p: int, q: int)
    requires
        entries.len() <= usize::MAX,
        is_sorted_order(code_keys(entries), by_code(entries)),
        0 <= p < q < entries.len(),
        ({
            let values = codes_of(in_code_order(entries));
            neighbour_need(values, values.len() as int) <= shortest_len(values, values.len() as int)
        }),
    ensures
        ({
            let arranged = in_code_order(entries);
            line_of(arranged, p).individual + line_of(arranged, p).remainder != line_of(
                arranged,
                q,
            ).individual + line_of(arranged, q).remainder
        }),
{
    let arranged = in_code_order(entries);
    let values = codes_of(arranged);
    let len = global_len(values) as int;
    lemma_codes_sorted(entries);
    lemma_global_prefixes_unique(values, p, q);
    crate::find_prefix::lemma_shortest_len_bound(values, values.len() as int, p);
    crate::find_prefix::lemma_shortest_len_bound(values, values.len() as int, q);
    let a = line_of(arranged, p);
    let b = line_of(arranged, q);
    assert(a.individual + a.remainder =~= values[p].take(len));
    assert(b.individual + b.remainder =~= values[q].take(len));
}

/// The parts of the line of one entry, from its two prefixes.
fn cut_line(global: &str, individual: &str, path: String) -> (line: ListingLine)
    ensures
        line.path == path,
        individual@.len() <= global@.len() ==> line.individual@ == individual@ && line.remainder@
            == global@.skip(individual@.len() as int),
        individual@.len() > global@.len() ==> line.individual@ == global@ && line.remainder@
            == Seq::<char>::empty(),
{
    let whole = chars_of(global);
    let own = chars_of(individual);
    if own.len() <= whole.len() {
        let rest = slice_subrange(whole.as_slice(), own.len(), whole.len());
        ListingLine { individual: string_of(own.as_slice()), remainder: string_of(rest), path }
    } else {
        ListingLine { individual: string_of(whole.as_slice()), remainder: String::new(), path }
    }
}

/// Lists what a walk found: one line per entry, in path order.
///
/// Every entry gets the code of its path. The codes, in order, are resolved
/// to prefixes; the identifier of an entry is its code cut to the global
/// length. Entries with the same path keep the order in which they were
/// found.
pub fn listing(entries: &[Found]) -> (lines: Vec<ListingLine>)
    ensures
        line_views(lines@) == listing_lines(found_views(entries@)),
        is_sorted_order(code_keys(found_views(entries@)), by_code(found_views(entries@))),
        is_sorted_order(
            path_keys(in_code_order(found_views(entries@))),
            by_path(in_code_order(found_views(entries@))),
        ),
{
    let ghost found = found_views(entries@);
    let n = entries.len();
    let mut codes: Vec<String> = Vec::new();
    let mut keys: Vec<Vec<u32>> = Vec::new();
    let mut i: usize = 0;
    while i < n
        invariant
            i <= n,
            n == entries.len(),
            found == found_views(entries@),
            codes.len() == i,
            keys.len() == i,
            forall|k: int| 0 <= k < i ==> (#[trigger] codes@[k])@ == path_code(found[k].path),
            forall|k: int|
                0 <= k < i ==> (#[trigger] keys@[k])@ == code_key(path_code(found[k].path)),
        decreases n - i,
    {
        assert(found[i as int] == entries@[i as int]@);
        let code = code_of(entries[i].path.as_str());
        let chars = chars_of(code.as_str());
        keys.push(code_key_of(chars.as_slice()));
        codes.push(code);
        i += 1;
    }
    assert(key_seqs(keys@) =~= code_keys(found));
    let order = sorted_order(&keys);
    proof {
        lemma_order_is_chosen(code_keys(found), order@);
    }
    let ghost arranged = in_code_order(found);
    let ghost values = codes_of(arranged);

    let mut sorted_codes: Vec<&str> = Vec::new();
    let mut path_order_keys: Vec<Vec<u32>> = Vec::new();
    let mut p: usize = 0;
    while p < n
        invariant
            p <= n,
            n == entries.len(),
            n == codes.len(),
            found == found_views(entries@),
            arranged == in_code_order(found),
            values == codes_of(arranged),
            order@ == by_code(found),
            order@.len() == n,
            ordered(code_keys(found), order@),
            code_keys(found).len() == n,
            forall|k: int| 0 <= k < n ==> (#[trigger] codes@[k])@ == path_code(found[k].path),
            sorted_codes.len() == p,
            path_order_keys.len() == p,
            forall|k: int| 0 <= k < p ==> (#[trigger] sorted_codes@[k])@ == values[k],
            forall|k: int|
                0 <= k < p ==> (#[trigger] path_order_keys@[k])@ == path_key(arranged[k].path),
        decreases n - p,
    {
        let e = order[p];
        assert(e < n);
        assert(found[e as int] == entries@[e as int]@);
        assert(arranged[p as int] == found[e as int]);
        sorted_codes.push(codes[e].as_str());
        let path = chars_of(entries[e].path.as_str());
        path_order_keys.push(path_key_of(path.as_slice()));
        p += 1;
    }
    assert(texts(sorted_codes@) =~= values);
    assert(key_seqs(path_order_keys@) =~= path_keys(arranged));
    let (len, global, individual) = shortest_unique_prefixes(sorted_codes.as_slice());
    let shown_order = sorted_order(&path_order_keys);
    proof {
        lemma_order_is_chosen(path_keys(arranged), shown_order@);
    }
    let mut lines: Vec<ListingLine> = Vec::new();
    let mut q: usize = 0;
    while q < n
        invariant
            q <= n,
            n == entries.len(),
            found == found_views(entries@),
            arranged == in_code_order(found),
            values == codes_of(arranged),
            values.len() == n,
            order@ == by_code(found),
            order@.len() == n,
            ordered(code_keys(found), order@),
            code_keys(found).len() == n,
            shown_order@ == by_path(arranged),
            shown_order@.len() == n,
            ordered(path_keys(arranged), shown_order@),
            path_keys(arranged).len() == n,
            resolves(values, len as nat, string_texts(global@), string_texts(individual@)),
            lines.len() == q,
            forall|k: int|
                0 <= k < q ==> (#[trigger] lines@[k])@ == line_of(arranged, shown_order@[k] as int),
        decreases n - q,
    {
        let p = shown_order[q];
        assert(p < n);
        let e = order[p];
        assert(e < n);
        assert(found[e as int] == entries@[e as int]@);
        assert(arranged[p as int] == found[e as int]);
        assert(string_texts(global@)[p as int] == global@[p as int]@);
        assert(string_texts(individual@)[p as int] == individual@[p as int]@);
        let shown = show_path(&entries[e]);
        let line = cut_line(global[p].as_str(), individual[p].as_str(), shown);
        proof {
            let code = values[p as int];
            let g = len as int;
            let own = individual_len(values, p as int) as int;
            crate::find_prefix::lemma_shortest_len_bound(values, n as int, p as int);
            assert(global@[p as int]@ == code.take(g));
            assert(individual@[p as int]@ == code.take(own));
            if own <= g {
                assert(code.take(g).skip(own) =~= code.subrange(own, g));
            } else {
                assert(code.subrange(g, g) =~= Seq::<char>::empty());
            }
            assert(line@ == line_of(arranged, p as int));
        }
        lines.push(line);
        q += 1;
    }
    assert(line_views(lines@) =~= listing_lines(found));
    lines
}

/// Why there is nothing to list for a path.
#[derive(Clone, Copy, Debug, PartialEq, Eq, Structural)]
pub enum RootError {
    /// Nothing is at the path.
    Missing,
    /// The path is a file that has no parent.
    NoParent,
}

/// The directory to list for a path: the path itself if it is a directory,
/// the directory that holds it if it is a file, and the current directory
/// where that is written as nothing.
pub open spec fn root_of(path: Seq<char>, kind: PathKind, parent: Option<Seq<char>>) -> Result<
    Seq<char>,
    RootError,
> {
    match kind {
        PathKind::Missing => Err(RootError::Missing),
        PathKind::Directory => Ok(path),
        PathKind::File => match parent {
            None => Err(RootError::NoParent),
            Some(parent) => if parent.len() == 0 {
                Ok("."@)
            } else {
                Ok(parent)
            },
        },
    }
}

/// The directory to list for `path`, given what is at the path and what its
/// parent is.
pub fn listing_root(path: &str, kind: PathKind, parent: Option<&str>) -> (root: Result<
    String,
    RootError,
>)
    ensures
        match root {
            Ok(root) => root_of(
                path@,
                kind,
                match parent {
                    Some(parent) => Some(parent@),
                    None => None,
                },
            ) == Ok::<Seq<char>, RootError>(root@),
            Err(error) => root_of(
                path@,
                kind,
                match parent {
                    Some(parent) => Some(parent@),
                    None => None,
                },
            ) == Err::<Seq<char>, RootError>(error),
        },
{
    match kind {
        PathKind::Missing => Err(RootError::Missing),
        PathKind::Directory => Ok(path.to_owned()),
        PathKind::File => match parent {
            None => Err(RootError::NoParent),
            Some(parent) => {
                if parent.unicode_len() == 0 {
                    Ok(".".to_owned())
                } else {
                    Ok(parent.to_owned())
                }
            },
        },
    }
}

/// The text of a line whose remainder is shown in a form of the caller's
/// choosing, as with marks that dim it on a terminal.
pub open spec fn dressed_text(line: ListingLineView, remainder: Seq<char>) -> Seq<char> {
    spaces(3) + line.individual + remainder + spaces(3) + seq![':'] + spaces(3) + line.path
}

impl ListingLine {
    /// The line as text, with the remainder of the identifier as given.
    pub fn text_with(&self, remainder: &str) -> (out: String)
        ensures
            out@ == dressed_text(self@, remainder@),
    {
        let mut out = String::new();
        push_spaces(&mut out, 3);
        push_text(&mut out, self.individual.as_str());
        push_text(&mut out, remainder);
        push_spaces(&mut out, 3);
        push_char(&mut out, ':');
        push_spaces(&mut out, 3);
        push_text(&mut out, self.path.as_str());
        assert(out@ =~= dressed_text(self@, remainder@));
        out
    }

    /// The line as plain text.
    pub fn text(&self) -> (out: String)
        ensures
            out@ == line_text(self@),
    {
        self.text_with(self.remainder.as_str())
    }
}

/// How the part of an identifier beyond the individual prefix is shown
/// where colours are used.
pub open spec fn remainder_emphasis() -> Emphasis {
    Emphasis { tint: None, bold: false, dimmed: true }
}

/// The text of a line of a listing. Without colours it is the plain text.
/// With colours, the remainder of the identifier is dimmed if there is one.
pub open spec fn shown_line(line: ListingLineView, no_color: bool) -> Seq<char> {
    if no_color || line.remainder.len() == 0 {
        line_text(line)
    } else {
        dressed_text(line, painted(remainder_emphasis(), line.remainder))
    }
}

/// The text of the first `upto` lines, with a line feed between each two.
pub open spec fn shown_lines(lines: Seq<ListingLineView>, no_color: bool, upto: int) -> Seq<char>
    decreases upto,
{
    if upto <= 0 {
        Seq::empty()
    } else if upto == 1 {
        shown_line(lines[0], no_color)
    } else {
        shown_lines(lines, no_color, upto - 1) + seq!['\n'] + shown_line(lines[upto - 1], no_color)
    }
}

impl ListingLine {
    /// The line as it is shown, with or without colours.
    pub fn shown(&self, no_color: bool) -> (out: String)
        ensures
            out@ == shown_line(self@, no_color),
    {
        if no_color || self.remainder.as_str().unicode_len() == 0 {
            self.text()
        } else {
            let dimmed = paint(
                Emphasis { tint: None, bold: false, dimmed: true },
                self.remainder.as_str(),
            );
            self.text_with(dimmed.as_str())
        }
    }
}

/// The listing of what a walk found, as text: the lines of [`listing`], one
/// under the other, with or without colours.
pub fn get_outputs(entries: &[Found], no_color: bool) -> (out: String)
    ensures
        out@ == shown_lines(
            listing_lines(found_views(entries@)),
            no_color,
            listing_lines(found_views(entries@)).len() as int,
        ),
{
    let lines = listing(entries);
    let ghost views = line_views(lines@);
    let mut out = String::new();
    let mut i: usize = 0;
    while i < lines.len()
        invariant
            i <= lines.len(),
            views == line_views(lines@),
            out@ == shown_lines(views, no_color, i as int),
        decreases lines.len() - i,
    {
        if i > 0 {
            push_char(&mut out, '\n');
        }
        assert(views[i as int] == lines@[i as int]@);
        let text = lines[i].shown(no_color);
        push_text(&mut out, text.as_str());
        proof {
            if i == 0 {
                assert(out@ =~= shown_line(views[0], no_color));
            }
        }
        i += 1;
    }
    out
}

} // verus!

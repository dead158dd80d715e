//! Character-level helpers shared by the grammar and the listing code.
//!
//! Text is handled as sequences of characters. The specification functions
//! here say what whitespace, uppercase letters and trimming are; the
//! executable functions compute them on slices and build strings.

use vstd::prelude::*;
use vstd::slice::slice_subrange;

verus! {

/// Appends one character to a string.
///
/// Trusted: stands for `String::push`, which the standard library documents as
/// appending the given character to the end of the string.
#[verifier::external_body]
pub(crate) fn push_char(s: &mut String, c: char)
    ensures
        final(s)@ == old(s)@.push(c),
{
    s.push(c);
}

/// The characters of a string slice, in order.
pub fn chars_of(s: &str) -> (out: Vec<char>)
    ensures
        out@ == s@,
{
    broadcast use vstd::string::group_string_axioms;

    let mut out: Vec<char> = Vec::new();
    let chars = s.chars();
    for c in it: chars
        invariant
            it.seq() == s@,
            out@ == s@.take(it.index()),
    {
        out.push(c);
    }
    out
}

/// Appends the characters of `chars` to `out`.
pub fn push_chars(out: &mut String, chars: &[char])
    ensures
        final(out)@ == old(out)@ + chars@,
{
    let mut i: usize = 0;
    while i < chars.len()
        invariant
            i <= chars.len(),
            out@ == old(out)@ + chars@.take(i as int),
        decreases chars.len() - i,
    {
        push_char(out, chars[i]);
        i += 1;
        assert(chars@.take(i as int) =~= chars@.take(i - 1).push(chars@[i - 1]));
    }
    assert(chars@.take(i as int) =~= chars@);
}

/// A string holding the characters of `chars`.
pub fn string_of(chars: &[char]) -> (out: String)
    ensures
        out@ == chars@,
{
    let mut out = String::new();
    push_chars(&mut out, chars);
    out
}

/// `n` spaces.
pub open spec fn spaces(n: nat) -> Seq<char> {
    Seq::new(n, |i: int| ' ')
}

/// Appends `n` spaces to `out`.
pub fn push_spaces(out: &mut String, n: usize)
    ensures
        final(out)@ == old(out)@ + spaces(n as nat),
{
    let mut i: usize = 0;
    while i < n
        invariant
            i <= n,
            out@ == old(out)@ + spaces(i as nat),
        decreases n - i,
    {
        push_char(out, ' ');
        i += 1;
        assert(spaces(i as nat) =~= spaces((i - 1) as nat).push(' '));
    }
}

/// Whether two character slices hold the same text.
pub fn same_chars(a: &[char], b: &[char]) -> (eq: bool)
    ensures
        eq == (a@ == b@),
{
    if a.len() != b.len() {
        return false;
    }
    let mut i: usize = 0;
    while i < a.len()
        invariant
            i <= a.len(),
            a.len() == b.len(),
            forall|j: int| 0 <= j < i ==> a@[j] == b@[j],
        decreases a.len() - i,
    {
        if a[i] != b[i] {
            return false;
        }
        i += 1;
    }
    assert(a@ =~= b@);
    true
}

/// Whether two string slices hold the same text.
pub fn same_text(a: &str, b: &str) -> (eq: bool)
    ensures
        eq == (a@ == b@),
{
    let a = chars_of(a);
    let b = chars_of(b);
    same_chars(a.as_slice(), b.as_slice())
}

/// Appends the text of `s` to `out`.
pub fn push_text(out: &mut String, s: &str)
    ensures
        final(out)@ == old(out)@ + s@,
{
    let chars = chars_of(s);
    push_chars(out, chars.as_slice());
}

/// Whether `c` has the Unicode property White_Space.
pub open spec fn is_whitespace(c: char) -> bool {
    let u = c as u32;
    (0x09 <= u && u <= 0x0D) || u == 0x20 || u == 0x85 || u == 0xA0 || u == 0x1680 || (0x2000
        <= u && u <= 0x200A) || u == 0x2028 || u == 0x2029 || u == 0x202F || u == 0x205F || u
        == 0x3000
}

/// Whether `c` is a whitespace character.
pub fn is_whitespace_char(c: char) -> (b: bool)
    ensures
        b == is_whitespace(c),
{
    let u: u32 = c as u32;
    (0x09 <= u && u <= 0x0D) || u == 0x20 || u == 0x85 || u == 0xA0 || u == 0x1680 || (0x2000
        <= u && u <= 0x200A) || u == 0x2028 || u == 0x2029 || u == 0x202F || u == 0x205F || u
        == 0x3000
}

/// Whether a character outside ASCII has the Unicode property Uppercase.
pub uninterp spec fn unicode_uppercase(c: char) -> bool;

/// Whether `c` is an uppercase letter: `A`..`Z` among the ASCII characters, and
/// the characters with the Unicode property Uppercase beyond them.
pub open spec fn is_uppercase(c: char) -> bool {
    if (c as u32) < 0x80 {
        'A' <= c && c <= 'Z'
    } else {
        unicode_uppercase(c)
    }
}

/// Trusted: stands for `char::is_uppercase`. Its result is a function of the
/// character alone, and it is only named here, not described.
#[verifier::external_body]
fn unicode_is_uppercase(c: char) -> (b: bool)
    ensures
        b == unicode_uppercase(c),
{
    c.is_uppercase()
}

/// Whether `c` is an uppercase letter.
pub fn is_uppercase_char(c: char) -> (b: bool)
    ensures
        b == is_uppercase(c),
{
    let u: u32 = c as u32;
    if u < 0x80 {
        0x41 <= u && u <= 0x5A
    } else {
        unicode_is_uppercase(c)
    }
}

/// Whether some character of `s` is an uppercase letter.
pub open spec fn has_uppercase(s: Seq<char>) -> bool {
    exists|i: int| 0 <= i < s.len() && is_uppercase(#[trigger] s[i])
}

/// Whether some character of `s` is an uppercase letter.
pub fn any_uppercase(s: &[char]) -> (b: bool)
    ensures
        b == has_uppercase(s@),
{
    let mut i: usize = 0;
    while i < s.len()
        invariant
            i <= s.len(),
            forall|j: int| 0 <= j < i ==> !is_uppercase(#[trigger] s@[j]),
        decreases s.len() - i,
    {
        if is_uppercase_char(s[i]) {
            return true;
        }
        i += 1;
    }
    false
}

/// Number of whitespace characters at the start of `s`.
pub open spec fn leading_ws(s: Seq<char>) -> nat
    decreases s.len(),
{
    if s.len() > 0 && is_whitespace(s[0]) {
        1 + leading_ws(s.drop_first())
    } else {
        0
    }
}

/// Number of whitespace characters at the end of `s`.
pub open spec fn trailing_ws(s: Seq<char>) -> nat
    decreases s.len(),
{
    if s.len() > 0 && is_whitespace(s.last()) {
        1 + trailing_ws(s.drop_last())
    } else {
        0
    }
}

/// `s` without its leading and trailing whitespace.
pub open spec fn trimmed(s: Seq<char>) -> Seq<char> {
    let rest = s.skip(leading_ws(s) as int);
    rest.take(rest.len() - trailing_ws(rest))
}

/// `k` is where the leading whitespace of `s` ends.
pub open spec fn ends_leading_ws(s: Seq<char>, k: int) -> bool {
    &&& 0 <= k <= s.len()
    &&& forall|i: int| 0 <= i < k ==> is_whitespace(#[trigger] s[i])
    &&& k < s.len() ==> !is_whitespace(s[k])
}

/// `k` is where the trailing whitespace of `s` starts.
pub open spec fn starts_trailing_ws(s: Seq<char>, k: int) -> bool {
    &&& 0 <= k <= s.len()
    &&& forall|i: int| k <= i < s.len() ==> is_whitespace(#[trigger] s[i])
    &&& k > 0 ==> !is_whitespace(s[k - 1])
}

/// Where the leading whitespace ends is how much of it there is.
proof fn lemma_leading_ws(s: Seq<char>, k: int)
    requires
        ends_leading_ws(s, k),
    ensures
        leading_ws(s) == k,
    decreases s.len(),
{
    if k > 0 {
        assert(is_whitespace(s[0]));
        let rest = s.drop_first();
        assert forall|i: int| 0 <= i < k - 1 implies is_whitespace(#[trigger] rest[i]) by {
            assert(rest[i] == s[i + 1]);
        }
        lemma_leading_ws(rest, k - 1);
    }
}

/// The leading whitespace ends after as many characters as it has.
pub(crate) proof fn lemma_leading_ws_ends(s: Seq<char>)
    ensures
        ends_leading_ws(s, leading_ws(s) as int),
    decreases s.len(),
{
    if s.len() > 0 && is_whitespace(s[0]) {
        let rest = s.drop_first();
        lemma_leading_ws_ends(rest);
        let k = leading_ws(s) as int;
        assert forall|i: int| 0 <= i < k implies is_whitespace(#[trigger] s[i]) by {
            if i > 0 {
                assert(s[i] == rest[i - 1]);
            }
        }
        if k < s.len() {
            assert(s[k] == rest[k - 1]);
        }
    }
}

/// Where the trailing whitespace starts is how much of it there is, from the end.
pub(crate) proof fn lemma_trailing_ws(s: Seq<char>, k: int)
    requires
        starts_trailing_ws(s, k),
    ensures
        trailing_ws(s) == s.len() - k,
    decreases s.len(),
{
    if k < s.len() {
        assert(is_whitespace(s[s.len() - 1]));
        let rest = s.drop_last();
        assert forall|i: int| k <= i < rest.len() implies is_whitespace(#[trigger] rest[i]) by {
            assert(rest[i] == s[i]);
        }
        if k > 0 {
            assert(rest[k - 1] == s[k - 1]);
        }
        lemma_trailing_ws(rest, k);
    }
}

/// The trailing whitespace starts as many characters before the end as it has.
pub(crate) proof fn lemma_trailing_ws_starts(s: Seq<char>)
    ensures
        starts_trailing_ws(s, s.len() - trailing_ws(s)),
    decreases s.len(),
{
    if s.len() > 0 && is_whitespace(s.last()) {
        let rest = s.drop_last();
        lemma_trailing_ws_starts(rest);
        let k = s.len() - trailing_ws(s);
        assert forall|i: int| k <= i < s.len() implies is_whitespace(#[trigger] s[i]) by {
            if i < s.len() - 1 {
                assert(s[i] == rest[i]);
            }
        }
        if k > 0 {
            assert(s[k - 1] == rest[k - 1]);
        }
    }
}

/// Trimming keeps exactly the part of `s` between `a` and `b` when everything
/// before `a` and from `b` on is whitespace and the part between is empty or
/// has no whitespace at either end.
pub(crate) proof fn lemma_trimmed_is(s: Seq<char>, a: int, b: int)
    requires
        0 <= a <= b <= s.len(),
        forall|i: int| 0 <= i < a ==> is_whitespace(#[trigger] s[i]),
        forall|i: int| b <= i < s.len() ==> is_whitespace(#[trigger] s[i]),
        a < b ==> !is_whitespace(s[a]) && !is_whitespace(s[b - 1]),
        a == b ==> b == s.len(),
    ensures
        trimmed(s) == s.subrange(a, b),
{
    lemma_leading_ws(s, a);
    let rest = s.skip(a);
    assert forall|i: int| b - a <= i < rest.len() implies is_whitespace(#[trigger] rest[i]) by {
        assert(rest[i] == s[i + a]);
    }
    lemma_trailing_ws(rest, b - a);
    assert(rest.take(b - a) =~= s.subrange(a, b));
}

/// `s` without its leading and trailing whitespace.
pub fn trim(s: &[char]) -> (out: &[char])
    ensures
        out@ == trimmed(s@),
{
    let mut a: usize = 0;
    while a < s.len() && is_whitespace_char(s[a])
        invariant
            a <= s.len(),
            forall|i: int| 0 <= i < a ==> is_whitespace(#[trigger] s@[i]),
        decreases s.len() - a,
    {
        a += 1;
    }
    let mut b: usize = s.len();
    while b > a && is_whitespace_char(s[b - 1])
        invariant
            a <= b <= s.len(),
            forall|i: int| b <= i < s.len() ==> is_whitespace(#[trigger] s@[i]),
        decreases b,
    {
        b -= 1;
    }
    proof {
        if a == b && b < s.len() {
            // everything from `a` on is whitespace, which the first loop excludes
            assert(is_whitespace(s@[a as int]));
        }
        lemma_trimmed_is(s@, a as int, b as int);
    }
    slice_subrange(s, a, b)
}

} // verus!

//! Shortest prefixes that tell sorted identifiers apart.
//!
//! In a sorted list, the values that share a prefix stand next to each other,
//! so it is enough to look at neighbours. One length, the global one, is
//! chosen for the whole list; each value also gets an individual prefix that
//! tells it from its two neighbours only.

use vstd::prelude::*;
use vstd::slice::slice_subrange;

use crate::text::{chars_of, string_of};

verus! {

/// Length of the longest prefix that `a` and `b` have in common.
pub open spec fn shared_prefix_len<T>(a: Seq<T>, b: Seq<T>) -> nat
    decreases a.len(),
{
    if a.len() > 0 && b.len() > 0 && a[0] == b[0] {
        1 + shared_prefix_len(a.drop_first(), b.drop_first())
    } else {
        0
    }
}

/// `k` characters are common to the start of `a` and `b`, and no more.
pub open spec fn is_shared_prefix_len<T>(a: Seq<T>, b: Seq<T>, k: int) -> bool {
    &&& 0 <= k <= a.len()
    &&& k <= b.len()
    &&& forall|i: int| 0 <= i < k ==> a[i] == b[i]
    &&& k < a.len() && k < b.len() ==> a[k] != b[k]
}

/// Lexicographic order on strings, by character code; a proper prefix comes first.
pub open spec fn lex_le(a: Seq<char>, b: Seq<char>) -> bool {
    let k = shared_prefix_len(a, b) as int;
    k == a.len() || (k < b.len() && a[k] < b[k])
}

/// Whether the values stand in lexicographic order.
pub open spec fn sorted(values: Seq<Seq<char>>) -> bool {
    forall|i: int, j: int| 0 <= i < j < values.len() ==> lex_le(#[trigger] values[i], #[trigger] values[j])
}

/// Length of the shortest among the first `upto` values; zero if there is none.
pub open spec fn shortest_len(values: Seq<Seq<char>>, upto: int) -> nat
    decreases upto,
{
    if upto <= 0 {
        0
    } else if upto == 1 {
        values[0].len()
    } else {
        let before = shortest_len(values, upto - 1);
        let here = values[upto - 1].len();
        if here < before {
            here
        } else {
            before
        }
    }
}

/// The most that two neighbours among the first `upto` values share, plus
/// one; zero if there are no two.
pub open spec fn neighbour_need(values: Seq<Seq<char>>, upto: int) -> nat
    decreases upto,
{
    if upto <= 1 {
        0
    } else {
        let before = neighbour_need(values, upto - 1);
        let here = shared_prefix_len(values[upto - 2], values[upto - 1]) + 1;
        if here > before {
            here
        } else {
            before
        }
    }
}

/// The global prefix length: what neighbours need to differ, but no more
/// than the shortest value has.
pub open spec fn global_len(values: Seq<Seq<char>>) -> nat {
    let need = neighbour_need(values, values.len() as int);
    let shortest = shortest_len(values, values.len() as int);
    if need < shortest {
        need
    } else {
        shortest
    }
}

/// The most that the value at `i` shares with the value before or after it.
pub open spec fn neighbour_share(values: Seq<Seq<char>>, i: int) -> nat {
    let left = if i > 0 {
        shared_prefix_len(values[i], values[i - 1])
    } else {
        0
    };
    let right = if i + 1 < values.len() {
        shared_prefix_len(values[i], values[i + 1])
    } else {
        0
    };
    if left > right {
        left
    } else {
        right
    }
}

/// The individual prefix length of the value at `i`: one more than it shares
/// with a neighbour, but no more than it has.
pub open spec fn individual_len(values: Seq<Seq<char>>, i: int) -> nat {
    let need = neighbour_share(values, i) + 1;
    if need < values[i].len() {
        need
    } else {
        values[i].len()
    }
}

/// What the resolver gives for `values`: the global length, every value cut
/// to it, and every value cut to its individual length.
pub open spec fn resolves(
    values: Seq<Seq<char>>,
    len: nat,
    global: Seq<Seq<char>>,
    individual: Seq<Seq<char>>,
) -> bool {
    &&& len == global_len(values)
    &&& global.len() == values.len()
    &&& individual.len() == values.len()
    &&& forall|i: int| 0 <= i < values.len() ==> #[trigger] global[i] == values[i].take(len as int)
    &&& forall|i: int|
        0 <= i < values.len() ==> #[trigger] individual[i] == values[i].take(
            individual_len(values, i) as int,
        )
}

/// What is common to the start of `a` and `b`, and no more, is their shared prefix.
pub(crate) proof fn lemma_shared_prefix_len<T>(a: Seq<T>, b: Seq<T>, k: int)
    requires
        is_shared_prefix_len(a, b, k),
    ensures
        shared_prefix_len(a, b) == k,
    decreases a.len(),
{
    if k > 0 {
        let a1 = a.drop_first();
        let b1 = b.drop_first();
        assert(a[0] == b[0]);
        assert forall|i: int| 0 <= i < k - 1 implies a1[i] == b1[i] by {
            assert(a[i + 1] == b[i + 1]);
        }
        lemma_shared_prefix_len(a1, b1, k - 1);
    }
}

/// The shared prefix is common to the start of `a` and `b`, and no more is.
pub(crate) proof fn lemma_shared_prefix_len_is<T>(a: Seq<T>, b: Seq<T>)
    ensures
        is_shared_prefix_len(a, b, shared_prefix_len(a, b) as int),
    decreases a.len(),
{
    if a.len() > 0 && b.len() > 0 && a[0] == b[0] {
        let a1 = a.drop_first();
        let b1 = b.drop_first();
        lemma_shared_prefix_len_is(a1, b1);
        let k = shared_prefix_len(a, b) as int;
        assert forall|i: int| 0 <= i < k implies a[i] == b[i] by {
            if i > 0 {
                assert(a1[i - 1] == b1[i - 1]);
            }
        }
        if k < a.len() && k < b.len() {
            assert(a1[k - 1] != b1[k - 1]);
        }
    }
}

/// Two values agree on their first `n` characters exactly when they share at
/// least `n`.
pub(crate) proof fn lemma_same_prefix<T>(a: Seq<T>, b: Seq<T>, n: int)
    requires
        0 <= n <= a.len(),
        n <= b.len(),
    ensures
        (a.take(n) == b.take(n)) <==> shared_prefix_len(a, b) >= n,
{
    lemma_shared_prefix_len_is(a, b);
    let k = shared_prefix_len(a, b) as int;
    if k >= n {
        assert(a.take(n) =~= b.take(n));
    } else {
        if a.take(n) == b.take(n) {
            assert(a.take(n)[k] == a[k]);
            assert(b.take(n)[k] == b[k]);
        }
    }
}

/// The shortest length is no more than any value has.
pub(crate) proof fn lemma_shortest_len_bound(values: Seq<Seq<char>>, upto: int, k: int)
    requires
        0 <= k < upto <= values.len(),
    ensures
        shortest_len(values, upto) <= values[k].len(),
    decreases upto,
{
    if k < upto - 1 {
        lemma_shortest_len_bound(values, upto - 1, k);
    }
}

/// No two neighbours share as much as the neighbours' need.
proof fn lemma_neighbour_need_bound(values: Seq<Seq<char>>, upto: int, k: int)
    requires
        0 <= k,
        k + 1 < upto <= values.len(),
    ensures
        shared_prefix_len(values[k], values[k + 1]) < neighbour_need(values, upto),
    decreases upto,
{
    if k + 1 < upto - 1 {
        lemma_neighbour_need_bound(values, upto - 1, k);
    }
}

/// Some two neighbours share just one less than the neighbours' need.
proof fn lemma_neighbour_need_witness(values: Seq<Seq<char>>, upto: int) -> (k: int)
    requires
        2 <= upto <= values.len(),
    ensures
        0 <= k,
        k + 1 < upto,
        shared_prefix_len(values[k], values[k + 1]) + 1 == neighbour_need(values, upto),
    decreases upto,
{
    if upto == 2 {
        assert(neighbour_need(values, 1) == 0);
        0
    } else if shared_prefix_len(values[upto - 2], values[upto - 1]) + 1 > neighbour_need(
        values,
        upto - 1,
    ) {
        upto - 2
    } else {
        lemma_neighbour_need_witness(values, upto - 1)
    }
}

/// A value between two values that agree on their first `n` characters
/// agrees with them.
proof fn lemma_between(a: Seq<char>, b: Seq<char>, c: Seq<char>, n: int)
    requires
        lex_le(a, b),
        lex_le(b, c),
        0 <= n <= a.len(),
        n <= c.len(),
        a.take(n) == c.take(n),
    ensures
        n <= b.len(),
        b.take(n) == a.take(n),
{
    lemma_shared_prefix_len_is(a, b);
    lemma_shared_prefix_len_is(b, c);
    let p = shared_prefix_len(a, b) as int;
    let q = shared_prefix_len(b, c) as int;
    assert forall|i: int| 0 <= i < n implies a[i] == c[i] by {
        assert(a.take(n)[i] == a[i]);
        assert(c.take(n)[i] == c[i]);
    }
    if p < n {
        // `a` and `b` part ways at `p`, where `b` is the greater
        assert(p < a.len());
        assert(a[p] < b[p]);
        assert(a[p] == c[p]);
        if q < p {
            assert(b[q] == a[q]);
            assert(a[q] == c[q]);
        } else if q > p {
            assert(b[p] == c[p]);
        }
        assert(false);
    }
    lemma_same_prefix(a, b, n);
}

/// Prefix uniqueness. In a sorted list whose neighbours' need does not exceed
/// its shortest value, no two values have the same global prefix.
pub proof fn lemma_global_prefixes_unique(values: Seq<Seq<char>>, i: int, j: int)
    requires
        sorted(values),
        neighbour_need(values, values.len() as int) <= shortest_len(values, values.len() as int),
        0 <= i < j < values.len(),
    ensures
        values[i].take(global_len(values) as int) != values[j].take(global_len(values) as int),
{
    let n = values.len() as int;
    let g = global_len(values) as int;
    lemma_shortest_len_bound(values, n, i);
    lemma_shortest_len_bound(values, n, i + 1);
    lemma_shortest_len_bound(values, n, j);
    lemma_neighbour_need_bound(values, n, i);
    if values[i].take(g) == values[j].take(g) {
        if j > i + 1 {
            lemma_between(values[i], values[i + 1], values[j], g);
        }
        lemma_same_prefix(values[i], values[i + 1], g);
    }
}

/// Prefix uniqueness for values of one length. In a sorted list of distinct
/// values that all have the same length, no two values have the same global
/// prefix.
pub proof fn lemma_unique_for_one_length(values: Seq<Seq<char>>, i: int, j: int)
    requires
        sorted(values),
        forall|a: int, b: int| 0 <= a < b < values.len() ==> values[a] != values[b],
        forall|a: int| 0 <= a < values.len() ==> (#[trigger] values[a]).len() == values[0].len(),
        0 <= i < j < values.len(),
    ensures
        values[i].take(global_len(values) as int) != values[j].take(global_len(values) as int),
{
    lemma_need_for_one_length(values, values.len() as int);
    lemma_global_prefixes_unique(values, i, j);
}

/// Distinct values of one length need no more than that length.
proof fn lemma_need_for_one_length(values: Seq<Seq<char>>, upto: int)
    requires
        forall|a: int, b: int| 0 <= a < b < values.len() ==> values[a] != values[b],
        forall|a: int| 0 <= a < values.len() ==> (#[trigger] values[a]).len() == values[0].len(),
        1 <= upto <= values.len(),
    ensures
        shortest_len(values, upto) == values[0].len(),
        neighbour_need(values, upto) <= values[0].len(),
    decreases upto,
{
    if upto > 1 {
        lemma_need_for_one_length(values, upto - 1);
        let a = values[upto - 2];
        let b = values[upto - 1];
        lemma_shared_prefix_len_is(a, b);
        if shared_prefix_len(a, b) == a.len() {
            assert(a =~= b);
        }
    }
}

/// The condition of prefix uniqueness is needed. Where the neighbours' need
/// exceeds the shortest value, two neighbours have the same global prefix.
pub proof fn lemma_cut_prefixes_collide(values: Seq<Seq<char>>) -> (k: int)
    requires
        values.len() >= 2,
        neighbour_need(values, values.len() as int) > shortest_len(values, values.len() as int),
    ensures
        0 <= k,
        k + 1 < values.len(),
        values[k].take(global_len(values) as int) == values[k + 1].take(global_len(values) as int),
{
    let n = values.len() as int;
    let g = global_len(values) as int;
    let k = lemma_neighbour_need_witness(values, n);
    lemma_shortest_len_bound(values, n, k);
    lemma_shortest_len_bound(values, n, k + 1);
    lemma_same_prefix(values[k], values[k + 1], g);
    k
}

/// The global length is the least that works. With any shorter length, two
/// neighbours have the same prefix.
pub proof fn lemma_global_len_minimal(values: Seq<Seq<char>>, shorter: int) -> (k: int)
    requires
        0 <= shorter < global_len(values),
    ensures
        0 <= k,
        k + 1 < values.len(),
        values[k].take(shorter) == values[k + 1].take(shorter),
{
    let n = values.len() as int;
    let k = lemma_neighbour_need_witness(values, n);
    lemma_shortest_len_bound(values, n, k);
    lemma_shortest_len_bound(values, n, k + 1);
    lemma_same_prefix(values[k], values[k + 1], shorter);
    k
}

/// Prefix determinism. Whatever the resolver gives for a list, it gives
/// every time.
pub proof fn lemma_resolution_determined(
    values: Seq<Seq<char>>,
    len1: nat,
    global1: Seq<Seq<char>>,
    individual1: Seq<Seq<char>>,
    len2: nat,
    global2: Seq<Seq<char>>,
    individual2: Seq<Seq<char>>,
)
    requires
        resolves(values, len1, global1, individual1),
        resolves(values, len2, global2, individual2),
    ensures
        len1 == len2,
        global1 == global2,
        individual1 == individual2,
{
    assert(global1 =~= global2);
    assert(individual1 =~= individual2);
}

/// The texts of a slice of strings.
pub open spec fn texts(values: Seq<&str>) -> Seq<Seq<char>> {
    Seq::new(values.len(), |i: int| values[i]@)
}

/// The texts of a sequence of owned strings.
pub open spec fn string_texts(values: Seq<String>) -> Seq<Seq<char>> {
    Seq::new(values.len(), |i: int| values[i]@)
}

/// The texts of a sequence of character vectors.
pub open spec fn char_texts(values: Seq<Vec<char>>) -> Seq<Seq<char>> {
    Seq::new(values.len(), |i: int| values[i]@)
}

/// Length of the longest prefix that `a` and `b` have in common.
pub fn shared_prefix(a: &[char], b: &[char]) -> (k: usize)
    ensures
        k == shared_prefix_len(a@, b@),
{
    let mut k: usize = 0;
    while k < a.len() && k < b.len() && a[k] == b[k]
        invariant
            k <= a.len(),
            k <= b.len(),
            forall|i: int| 0 <= i < k ==> a@[i] == b@[i],
        decreases a.len() - k,
    {
        k += 1;
    }
    proof {
        lemma_shared_prefix_len(a@, b@, k as int);
    }
    k
}

/// The global prefix length of `values`.
fn global_length(values: &Vec<Vec<char>>) -> (len: usize)
    ensures
        len == global_len(char_texts(values@)),
{
    let ghost texts = char_texts(values@);
    let n = values.len();
    if n == 0 {
        return 0;
    }
    let mut shortest: usize = values[0].len();
    let mut share: usize = 0;
    let mut i: usize = 1;
    while i < n
        invariant
            1 <= i <= n,
            n == values.len(),
            texts == char_texts(values@),
            shortest == shortest_len(texts, i as int),
            i >= 2 ==> share + 1 == neighbour_need(texts, i as int),
            i < 2 ==> share == 0,
        decreases n - i,
    {
        assert(texts[i as int] == values@[i as int]@);
        assert(texts[i - 1] == values@[i - 1]@);
        assert(neighbour_need(texts, 1) == 0);
        if values[i].len() < shortest {
            shortest = values[i].len();
        }
        let here = shared_prefix(values[i - 1].as_slice(), values[i].as_slice());
        if here > share {
            share = here;
        }
        i += 1;
    }
    if n < 2 {
        0
    } else if share < shortest {
        share + 1
    } else {
        shortest
    }
}

/// The individual prefix length of the value at `i`.
fn individual_length(values: &Vec<Vec<char>>, i: usize) -> (len: usize)
    requires
        i < values.len(),
    ensures
        len == individual_len(char_texts(values@), i as int),
{
    let ghost texts = char_texts(values@);
    assert(texts[i as int] == values@[i as int]@);
    let mut share: usize = 0;
    if i > 0 {
        assert(texts[i - 1] == values@[i - 1]@);
        share = shared_prefix(values[i].as_slice(), values[i - 1].as_slice());
    }
    if i + 1 < values.len() {
        assert(texts[i + 1] == values@[i + 1]@);
        let right = shared_prefix(values[i].as_slice(), values[i + 1].as_slice());
        if right > share {
            share = right;
        }
    }
    if share < values[i].len() {
        share + 1
    } else {
        values[i].len()
    }
}

/// Resolves sorted values to prefixes.
///
/// Returns the global prefix length, every value cut to that length, and
/// every value cut to its individual length. The global length is one more
/// than the most that two neighbours share, and the individual length of a
/// value one more than the most it shares with a neighbour; neither exceeds
/// what the values have. The values are expected in lexicographic order:
/// that is what makes neighbours the only ones that matter. No values give
/// `(0, [], [])`.
pub fn shortest_unique_prefixes(values: &[&str]) -> (out: (usize, Vec<String>, Vec<String>))
    ensures
        resolves(texts(values@), out.0 as nat, string_texts(out.1@), string_texts(out.2@)),
{
    let n = values.len();
    let mut chars: Vec<Vec<char>> = Vec::new();
    let mut i: usize = 0;
    while i < n
        invariant
            i <= n,
            n == values.len(),
            chars.len() == i,
            forall|k: int| 0 <= k < i ==> (#[trigger] chars@[k])@ == values@[k]@,
        decreases n - i,
    {
        chars.push(chars_of(values[i]));
        i += 1;
    }
    assert(char_texts(chars@) =~= texts(values@));
    let len = global_length(&chars);
    let ghost all = texts(values@);
    let mut global: Vec<String> = Vec::new();
    let mut individual: Vec<String> = Vec::new();
    let mut i: usize = 0;
    while i < n
        invariant
            i <= n,
            n == chars.len(),
            all.len() == n,
            char_texts(chars@) == all,
            len == global_len(all),
            global.len() == i,
            individual.len() == i,
            forall|k: int| 0 <= k < i ==> (#[trigger] global@[k])@ == all[k].take(len as int),
            forall|k: int|
                0 <= k < i ==> (#[trigger] individual@[k])@ == all[k].take(
                    individual_len(all, k) as int,
                ),
        decreases n - i,
    {
        let value = chars[i].as_slice();
        assert(all[i as int] == value@);
        proof {
            lemma_shortest_len_bound(all, n as int, i as int);
        }
        global.push(string_of(slice_subrange(value, 0, len)));
        let own = individual_length(&chars, i);
        individual.push(string_of(slice_subrange(value, 0, own)));
        i += 1;
    }
    (len, global, individual)
}

} // verus!

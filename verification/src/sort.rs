//! Ordering entries by a key.
//!
//! A key is a sequence of numbers, and keys are compared lexicographically.
//! Sorting does not move the keys: it gives the order in which to visit them,
//! as positions. Equal keys are visited in the order in which they stand, so
//! there is exactly one such order.

use vstd::prelude::*;
use vstd::seq_lib::lemma_multiset_commutative;
use vstd::slice::{slice_subrange, slice_to_vec};

use crate::find_prefix::{
    is_shared_prefix_len, lemma_shared_prefix_len, lemma_shared_prefix_len_is, lex_le,
    shared_prefix_len,
};

verus! {

/// Lexicographic order on keys; a proper prefix comes first.
pub open spec fn key_le(a: Seq<u32>, b: Seq<u32>) -> bool {
    let k = shared_prefix_len(a, b) as int;
    k == a.len() || (k < b.len() && a[k] < b[k])
}

/// Whether position `i` is visited no later than position `j`: its key is
/// smaller, or the keys are equal and `i` does not stand after `j`.
pub open spec fn comes_first(keys: Seq<Seq<u32>>, i: int, j: int) -> bool {
    key_le(keys[i], keys[j]) && (key_le(keys[j], keys[i]) ==> i <= j)
}

/// Whether `items` are positions of `keys`, each visited no later than those after it.
pub open spec fn ordered(keys: Seq<Seq<u32>>, items: Seq<usize>) -> bool {
    &&& forall|p: int| 0 <= p < items.len() ==> (#[trigger] items[p]) < keys.len()
    &&& forall|p: int, q: int|
        0 <= p < q < items.len() ==> comes_first(keys, #[trigger] items[p] as int, #[trigger] items[q] as int)
}

/// The positions `0`, `1`, .. below `n`.
pub open spec fn positions(n: nat) -> Seq<usize> {
    Seq::new(n, |i: int| i as usize)
}

/// Whether `order` is the order in which to visit `keys`: every position
/// once, smaller keys first, equal keys as they stand.
pub open spec fn is_sorted_order(keys: Seq<Seq<u32>>, order: Seq<usize>) -> bool {
    &&& order.len() == keys.len()
    &&& ordered(keys, order)
    &&& order.to_multiset() == positions(keys.len()).to_multiset()
}

/// The keys held by a vector of vectors.
pub open spec fn key_seqs(keys: Seq<Vec<u32>>) -> Seq<Seq<u32>> {
    Seq::new(keys.len(), |i: int| keys[i]@)
}

/// Two keys share as much in one direction as in the other.
proof fn lemma_shared_symmetric<T>(a: Seq<T>, b: Seq<T>)
    ensures
        shared_prefix_len(a, b) == shared_prefix_len(b, a),
{
    lemma_shared_prefix_len_is(a, b);
    let k = shared_prefix_len(a, b) as int;
    assert(is_shared_prefix_len(b, a, k));
    lemma_shared_prefix_len(b, a, k);
}

/// Of two keys, one is no greater than the other; if each is no greater than
/// the other they are equal.
pub proof fn lemma_key_le_total(a: Seq<u32>, b: Seq<u32>)
    ensures
        key_le(a, b) || key_le(b, a),
        key_le(a, b) && key_le(b, a) ==> a == b,
        key_le(a, a),
{
    lemma_shared_symmetric(a, b);
    lemma_shared_prefix_len_is(a, b);
    lemma_shared_prefix_len_is(a, a);
    if key_le(a, b) && key_le(b, a) {
        assert(a =~= b);
    }
}

/// The order on keys is transitive.
pub proof fn lemma_key_le_transitive(a: Seq<u32>, b: Seq<u32>, c: Seq<u32>)
    requires
        key_le(a, b),
        key_le(b, c),
    ensures
        key_le(a, c),
{
    lemma_shared_prefix_len_is(a, b);
    lemma_shared_prefix_len_is(b, c);
    let p = shared_prefix_len(a, b) as int;
    let q = shared_prefix_len(b, c) as int;
    let r = if p < q {
        p
    } else {
        q
    };
    if p == a.len() && p <= q {
        // `a` is a prefix of `b`, which agrees with `c` beyond it
        assert(is_shared_prefix_len(a, c, p));
        lemma_shared_prefix_len(a, c, p);
    } else {
        assert(is_shared_prefix_len(a, c, r));
        lemma_shared_prefix_len(a, c, r);
    }
}

/// The visiting order is transitive.
proof fn lemma_comes_first_transitive(keys: Seq<Seq<u32>>, i: int, j: int, k: int)
    requires
        comes_first(keys, i, j),
        comes_first(keys, j, k),
    ensures
        comes_first(keys, i, k),
{
    lemma_key_le_transitive(keys[i], keys[j], keys[k]);
    if key_le(keys[k], keys[i]) {
        lemma_key_le_transitive(keys[k], keys[i], keys[j]);
        lemma_key_le_transitive(keys[j], keys[k], keys[i]);
    }
}

/// Of two positions, one is visited no later than the other.
proof fn lemma_comes_first_total(keys: Seq<Seq<u32>>, i: int, j: int)
    ensures
        comes_first(keys, i, j) || comes_first(keys, j, i),
{
    lemma_key_le_total(keys[i], keys[j]);
}

/// The order in which to visit keys is unique.
pub proof fn lemma_sorted_order_unique(keys: Seq<Seq<u32>>, first: Seq<usize>, second: Seq<usize>)
    requires
        keys.len() <= usize::MAX,
        is_sorted_order(keys, first),
        is_sorted_order(keys, second),
    ensures
        first == second,
{
    lemma_order_no_duplicates(keys, first);
    lemma_order_no_duplicates(keys, second);
    lemma_same_items_same_order(keys, first, second);
}

/// A visiting order names no position twice and leaves none out.
pub proof fn lemma_order_no_duplicates(keys: Seq<Seq<u32>>, order: Seq<usize>)
    requires
        keys.len() <= usize::MAX,
        is_sorted_order(keys, order),
    ensures
        order.no_duplicates(),
        forall|i: usize| i < keys.len() ==> #[trigger] order.contains(i),
{
    let all = positions(keys.len());
    assert(all.no_duplicates());
    all.lemma_multiset_has_no_duplicates();
    order.lemma_multiset_has_no_duplicates_conv();
    all.to_multiset_ensures();
    order.to_multiset_ensures();
    assert forall|i: usize| i < keys.len() implies #[trigger] order.contains(i) by {
        assert(all[i as int] == i);
        assert(all.contains(i));
        assert(all.to_multiset().count(i) > 0);
    }
}

/// Two ordered sequences of the same distinct positions are the same sequence.
proof fn lemma_same_items_same_order(keys: Seq<Seq<u32>>, first: Seq<usize>, second: Seq<usize>)
    requires
        ordered(keys, first),
        ordered(keys, second),
        first.no_duplicates(),
        second.no_duplicates(),
        first.to_multiset() == second.to_multiset(),
    ensures
        first == second,
    decreases first.len(),
{
    first.to_multiset_ensures();
    second.to_multiset_ensures();
    assert(first.len() == second.len());
    if first.len() > 0 {
        let a = first[0];
        let b = second[0];
        assert(first.contains(a));
        assert(second.contains(b));
        assert(first.to_multiset().count(a) > 0);
        assert(second.to_multiset().count(b) > 0);
        assert(second.contains(a));
        assert(first.contains(b));
        let pa = choose|p: int| 0 <= p < second.len() && second[p] == a;
        let pb = choose|p: int| 0 <= p < first.len() && first[p] == b;
        if a != b {
            // each of the two heads comes first of the other
            assert(comes_first(keys, b as int, a as int));
            assert(comes_first(keys, a as int, b as int));
            lemma_key_le_total(keys[a as int], keys[b as int]);
            assert(false);
        }
        let rest1 = first.remove(0);
        let rest2 = second.remove(0);
        assert(rest1 =~= first.drop_first());
        assert(rest2 =~= second.drop_first());
        assert(rest1.to_multiset() =~= first.to_multiset().remove(a));
        assert(rest2.to_multiset() =~= second.to_multiset().remove(b));
        assert(rest1.to_multiset() == rest2.to_multiset());
        assert(ordered(keys, rest1)) by {
            assert forall|p: int, q: int| 0 <= p < q < rest1.len() implies comes_first(
                keys,
                #[trigger] rest1[p] as int,
                #[trigger] rest1[q] as int,
            ) by {
                assert(rest1[p] == first[p + 1] && rest1[q] == first[q + 1]);
            }
            assert forall|p: int| 0 <= p < rest1.len() implies (#[trigger] rest1[p]) < keys.len() by {
                assert(rest1[p] == first[p + 1]);
            }
        }
        assert(ordered(keys, rest2)) by {
            assert forall|p: int, q: int| 0 <= p < q < rest2.len() implies comes_first(
                keys,
                #[trigger] rest2[p] as int,
                #[trigger] rest2[q] as int,
            ) by {
                assert(rest2[p] == second[p + 1] && rest2[q] == second[q + 1]);
            }
            assert forall|p: int| 0 <= p < rest2.len() implies (#[trigger] rest2[p]) < keys.len() by {
                assert(rest2[p] == second[p + 1]);
            }
        }
        assert(rest1.no_duplicates()) by {
            assert forall|p: int, q: int|
                0 <= p < rest1.len() && 0 <= q < rest1.len() && p != q implies rest1[p]
                != rest1[q] by {
                assert(rest1[p] == first[p + 1] && rest1[q] == first[q + 1]);
            }
        }
        assert(rest2.no_duplicates()) by {
            assert forall|p: int, q: int|
                0 <= p < rest2.len() && 0 <= q < rest2.len() && p != q implies rest2[p]
                != rest2[q] by {
                assert(rest2[p] == second[p + 1] && rest2[q] == second[q + 1]);
            }
        }
        lemma_same_items_same_order(keys, rest1, rest2);
        assert(first =~= seq![a] + rest1);
        assert(second =~= seq![b] + rest2);
    } else {
        assert(first =~= second);
    }
}

/// Whether key `a` is no greater than key `b`.
pub fn key_before(a: &[u32], b: &[u32]) -> (le: bool)
    ensures
        le == key_le(a@, b@),
{
    let mut k: usize = 0;
    while k < a.len() && k < b.len() && a[k] == b[k]
        invariant
            k <= a.len(),
            k <= b.len(),
            forall|i: int| 0 <= i < k ==> a@[i] == b@[i],
        decreases a.len() - k,
    {
        k += 1;
    }
    proof {
        lemma_shared_prefix_len(a@, b@, k as int);
    }
    k == a.len() || (k < b.len() && a[k] < b[k])
}

/// Whether position `i` is visited no later than position `j`.
fn visits_first(keys: &Vec<Vec<u32>>, i: usize, j: usize) -> (first: bool)
    requires
        i < keys.len(),
        j < keys.len(),
    ensures
        first == comes_first(key_seqs(keys@), i as int, j as int),
{
    let a = keys[i].as_slice();
    let b = keys[j].as_slice();
    assert(key_seqs(keys@)[i as int] == a@);
    assert(key_seqs(keys@)[j as int] == b@);
    key_before(a, b) && (!key_before(b, a) || i <= j)
}

/// Merges two ordered runs of positions into one.
fn merge(keys: &Vec<Vec<u32>>, left: &Vec<usize>, right: &Vec<usize>) -> (out: Vec<usize>)
    requires
        ordered(key_seqs(keys@), left@),
        ordered(key_seqs(keys@), right@),
        left.len() + right.len() <= usize::MAX,
    ensures
        ordered(key_seqs(keys@), out@),
        out@.to_multiset() == left@.to_multiset().add(right@.to_multiset()),
{
    broadcast use vstd::seq_lib::group_to_multiset_ensures;

    let ghost ks = key_seqs(keys@);
    let mut out: Vec<usize> = Vec::new();
    let mut i: usize = 0;
    let mut j: usize = 0;
    proof {
        assert(left@.take(0) =~= Seq::<usize>::empty());
        assert(right@.take(0) =~= Seq::<usize>::empty());
        lemma_multiset_commutative(left@.take(0), right@.take(0));
        assert(left@.take(0) + right@.take(0) =~= out@);
    }
    while i < left.len() || j < right.len()
        invariant
            i <= left.len(),
            j <= right.len(),
            ks == key_seqs(keys@),
            ks.len() == keys.len(),
            ordered(ks, left@),
            ordered(ks, right@),
            ordered(ks, out@),
            out@.len() == i + j,
            out@.to_multiset() == left@.take(i as int).to_multiset().add(
                right@.take(j as int).to_multiset(),
            ),
            forall|p: int, a: int|
                0 <= p < out@.len() && i <= a < left.len() ==> comes_first(
                    ks,
                    #[trigger] out@[p] as int,
                    #[trigger] left@[a] as int,
                ),
            forall|p: int, b: int|
                0 <= p < out@.len() && j <= b < right.len() ==> comes_first(
                    ks,
                    #[trigger] out@[p] as int,
                    #[trigger] right@[b] as int,
                ),
        decreases left.len() - i + right.len() - j,
    {
        let ghost prior = out@;
        let take_left = if i == left.len() {
            false
        } else if j == right.len() {
            true
        } else {
            visits_first(keys, left[i], right[j])
        };
        if take_left {
            let x = left[i];
            out.push(x);
            proof {
                broadcast use vstd::multiset::group_multiset_axioms;

                assert(left@.take(i + 1) =~= left@.take(i as int).push(x));
                vstd::seq_lib::to_multiset_build(prior, x);
                vstd::seq_lib::to_multiset_build(left@.take(i as int), x);
                assert(out@.to_multiset() =~= left@.take(i + 1).to_multiset().add(
                    right@.take(j as int).to_multiset(),
                ));
                assert forall|p: int, b: int|
                    0 <= p < out@.len() && j <= b < right.len() implies comes_first(
                    ks,
                    #[trigger] out@[p] as int,
                    #[trigger] right@[b] as int,
                ) by {
                    if p == prior.len() {
                        if b > j {
                            lemma_comes_first_transitive(
                                ks,
                                x as int,
                                right@[j as int] as int,
                                right@[b] as int,
                            );
                        }
                    } else {
                        assert(out@[p] == prior[p]);
                    }
                }
                assert forall|p: int, a: int|
                    0 <= p < out@.len() && i + 1 <= a < left.len() implies comes_first(
                    ks,
                    #[trigger] out@[p] as int,
                    #[trigger] left@[a] as int,
                ) by {
                    if p < prior.len() {
                        assert(out@[p] == prior[p]);
                    }
                }
                assert forall|p: int, q: int| 0 <= p < q < out@.len() implies comes_first(
                    ks,
                    #[trigger] out@[p] as int,
                    #[trigger] out@[q] as int,
                ) by {
                    assert(out@[p] == prior[p]);
                    if q < prior.len() {
                        assert(out@[q] == prior[q]);
                    }
                }
            }
            i += 1;
        } else {
            let x = right[j];
            out.push(x);
            proof {
                broadcast use vstd::multiset::group_multiset_axioms;

                assert(right@.take(j + 1) =~= right@.take(j as int).push(x));
                vstd::seq_lib::to_multiset_build(prior, x);
                vstd::seq_lib::to_multiset_build(right@.take(j as int), x);
                assert(out@.to_multiset() =~= left@.take(i as int).to_multiset().add(
                    right@.take(j + 1).to_multiset(),
                ));
                if i < left.len() {
                    lemma_comes_first_total(ks, left@[i as int] as int, x as int);
                }
                assert forall|p: int, a: int|
                    0 <= p < out@.len() && i <= a < left.len() implies comes_first(
                    ks,
                    #[trigger] out@[p] as int,
                    #[trigger] left@[a] as int,
                ) by {
                    if p == prior.len() {
                        if a > i {
                            lemma_comes_first_transitive(
                                ks,
                                x as int,
                                left@[i as int] as int,
                                left@[a] as int,
                            );
                        }
                    } else {
                        assert(out@[p] == prior[p]);
                    }
                }
                assert forall|p: int, b: int|
                    0 <= p < out@.len() && j + 1 <= b < right.len() implies comes_first(
                    ks,
                    #[trigger] out@[p] as int,
                    #[trigger] right@[b] as int,
                ) by {
                    if p < prior.len() {
                        assert(out@[p] == prior[p]);
                    }
                }
                assert forall|p: int, q: int| 0 <= p < q < out@.len() implies comes_first(
                    ks,
                    #[trigger] out@[p] as int,
                    #[trigger] out@[q] as int,
                ) by {
                    assert(out@[p] == prior[p]);
                    if q < prior.len() {
                        assert(out@[q] == prior[q]);
                    }
                }
            }
            j += 1;
        }
    }
    proof {
        assert(left@.take(i as int) =~= left@);
        assert(right@.take(j as int) =~= right@);
    }
    out
}

/// Puts positions of `keys` into visiting order.
fn sort_items(keys: &Vec<Vec<u32>>, items: &[usize]) -> (out: Vec<usize>)
    requires
        forall|p: int| 0 <= p < items@.len() ==> (#[trigger] items@[p]) < keys.len(),
    ensures
        ordered(key_seqs(keys@), out@),
        out@.to_multiset() == items@.to_multiset(),
    decreases items@.len(),
{
    let n = items.len();
    if n <= 1 {
        let out = slice_to_vec(items);
        return out;
    }
    let mid = n / 2;
    let left = slice_subrange(items, 0, mid);
    let right = slice_subrange(items, mid, n);
    let sorted_left = sort_items(keys, left);
    let sorted_right = sort_items(keys, right);
    proof {
        broadcast use vstd::seq_lib::group_to_multiset_ensures;

        assert(items@ =~= left@ + right@);
        lemma_multiset_commutative(left@, right@);
        left@.to_multiset_ensures();
        right@.to_multiset_ensures();
        sorted_left@.to_multiset_ensures();
        sorted_right@.to_multiset_ensures();
        assert(sorted_left@.len() == left@.len());
        assert(sorted_right@.len() == right@.len());
    }
    merge(keys, &sorted_left, &sorted_right)
}

/// The order in which to visit `keys`: every position once, smaller keys
/// first, equal keys in the order in which they stand.
pub fn sorted_order(keys: &Vec<Vec<u32>>) -> (order: Vec<usize>)
    ensures
        is_sorted_order(key_seqs(keys@), order@),
{
    let n = keys.len();
    let mut all: Vec<usize> = Vec::new();
    let mut i: usize = 0;
    while i < n
        invariant
            i <= n,
            all@ == positions(i as nat),
        decreases n - i,
    {
        all.push(i);
        i += 1;
        assert(all@ =~= positions(i as nat));
    }
    let order = sort_items(keys, all.as_slice());
    proof {
        order@.to_multiset_ensures();
        all@.to_multiset_ensures();
        assert(order@.len() == all@.len());
    }
    order
}

/// The key of a text in code order: its character codes.
pub open spec fn code_key(text: Seq<char>) -> Seq<u32> {
    Seq::new(text.len(), |i: int| text[i] as u32)
}

/// Keys in code order compare as their texts do.
pub proof fn lemma_code_key_order(a: Seq<char>, b: Seq<char>)
    ensures
        key_le(code_key(a), code_key(b)) == lex_le(a, b),
        shared_prefix_len(code_key(a), code_key(b)) == shared_prefix_len(a, b),
{
    lemma_shared_prefix_len_is(a, b);
    let k = shared_prefix_len(a, b) as int;
    let ka = code_key(a);
    let kb = code_key(b);
    assert forall|i: int| 0 <= i < k implies ka[i] == kb[i] by {
        assert(a[i] == b[i]);
    }
    if k < a.len() && k < b.len() {
        lemma_char_codes(a[k], b[k]);
    }
    assert(is_shared_prefix_len(ka, kb, k));
    lemma_shared_prefix_len(ka, kb, k);
}

/// Characters compare as their codes do.
proof fn lemma_char_codes(c: char, d: char)
    ensures
        (c as u32 == d as u32) == (c == d),
        (c as u32) < (d as u32) <==> c < d,
{
}

/// The key of `text` in code order.
pub fn code_key_of(text: &[char]) -> (key: Vec<u32>)
    ensures
        key@ == code_key(text@),
{
    let mut key: Vec<u32> = Vec::new();
    let mut i: usize = 0;
    while i < text.len()
        invariant
            i <= text.len(),
            key@ == code_key(text@.take(i as int)),
        decreases text.len() - i,
    {
        key.push(text[i] as u32);
        i += 1;
        assert(key@ =~= code_key(text@.take(i as int)));
    }
    assert(text@.take(i as int) =~= text@);
    key
}

} // verus!


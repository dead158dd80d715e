//! Base-36 identifiers for 256-bit digests.
//!
//! A digest is read as one big-endian unsigned number and written with the
//! thirty-six symbols `a`..`z`, `0`..`9`, most significant digit first.

use vstd::prelude::*;

use crate::text::push_char;

verus! {

/// Number of symbols in the identifier alphabet.
pub const ALPHABET_LEN: u32 = 36;

/// The symbol that stands for digit `d`: `a`..`z` for 0..25, `0`..`9` for 26..35.
pub open spec fn symbol(d: int) -> char {
    if d < 26 {
        (97 + d) as char
    } else {
        (22 + d) as char
    }
}

/// Whether `c` is one of the thirty-six symbols.
pub open spec fn in_alphabet(c: char) -> bool {
    ('a' <= c && c <= 'z') || ('0' <= c && c <= '9')
}

/// The digit a symbol stands for; the inverse of [`symbol`] on the alphabet.
pub open spec fn digit_of(c: char) -> int {
    if 'a' <= c && c <= 'z' {
        c as int - 97
    } else {
        c as int - 22
    }
}

/// The number that a byte string denotes when read big-endian.
pub open spec fn be_value(bytes: Seq<u8>) -> nat
    decreases bytes.len(),
{
    if bytes.len() == 0 {
        0
    } else {
        be_value(bytes.drop_last()) * 256 + bytes.last() as nat
    }
}

/// The base-36 digits of `n`, most significant first; empty for zero.
pub open spec fn digits(n: nat) -> Seq<char>
    decreases n,
{
    if n == 0 {
        Seq::empty()
    } else {
        digits(n / 36).push(symbol((n % 36) as int))
    }
}

/// The identifier of `n`: its base-36 digits, or the single symbol for zero.
pub open spec fn base36(n: nat) -> Seq<char> {
    if n == 0 {
        seq![symbol(0)]
    } else {
        digits(n)
    }
}

/// The number that a string of symbols denotes in base 36.
pub open spec fn base36_value(s: Seq<char>) -> nat
    decreases s.len(),
{
    if s.len() == 0 {
        0
    } else {
        (base36_value(s.drop_last()) * 36 + digit_of(s.last())) as nat
    }
}

/// `36` to the power `k`.
pub open spec fn pow36(k: nat) -> nat
    decreases k,
{
    if k == 0 {
        1
    } else {
        36 * pow36((k - 1) as nat)
    }
}

/// `256` to the power `k`.
pub open spec fn pow256(k: nat) -> nat
    decreases k,
{
    if k == 0 {
        1
    } else {
        256 * pow256((k - 1) as nat)
    }
}

/// The symbol for digit `d`.
pub fn alphabet_symbol(d: u8) -> (c: char)
    requires
        d < ALPHABET_LEN,
    ensures
        c == symbol(d as int),
        in_alphabet(c),
{
    if d < 26 {
        (97 + d) as char
    } else {
        (22 + d) as char
    }
}

/// Every digit string is made of alphabet symbols.
pub proof fn lemma_digits_in_alphabet(n: nat)
    ensures
        forall|i: int| 0 <= i < digits(n).len() ==> in_alphabet(#[trigger] digits(n)[i]),
    decreases n,
{
    if n != 0 {
        lemma_digits_in_alphabet(n / 36);
        let d = digits(n);
        assert forall|i: int| 0 <= i < d.len() implies in_alphabet(#[trigger] d[i]) by {
            if i < d.len() - 1 {
                assert(d[i] == digits(n / 36)[i]);
            } else {
                assert(d[i] == symbol((n % 36) as int));
            }
        }
    }
}

/// A number below `36^k` has at most `k` digits.
proof fn lemma_digits_len(n: nat, k: nat)
    requires
        n < pow36(k),
    ensures
        digits(n).len() <= k,
    decreases n,
{
    if n != 0 {
        lemma_digits_len(n / 36, (k - 1) as nat);
    }
}

/// A big-endian byte string of length `k` denotes a number below `256^k`.
proof fn lemma_be_value_bound(bytes: Seq<u8>)
    ensures
        be_value(bytes) < pow256(bytes.len()),
    decreases bytes.len(),
{
    if bytes.len() != 0 {
        lemma_be_value_bound(bytes.drop_last());
    }
}

/// `256^32`, the number of 256-bit digests, does not exceed `36^50`.
proof fn lemma_digest_range()
    ensures
        pow256(32) <= pow36(50),
{
    assert(pow256(8) == 18446744073709551616) by {
        reveal_with_fuel(pow256, 9);
    }
    assert(pow256(16) == 340282366920938463463374607431768211456) by {
        reveal_with_fuel(pow256, 9);
    }
    assert(pow256(24) == 6277101735386680763835789423207666416102355444464034512896) by {
        reveal_with_fuel(pow256, 9);
    }
    assert(pow256(32)
        == 115792089237316195423570985008687907853269984665640564039457584007913129639936) by {
        reveal_with_fuel(pow256, 9);
    }
    assert(pow36(10) == 3656158440062976) by {
        reveal_with_fuel(pow36, 11);
    }
    assert(pow36(20) == 13367494538843734067838845976576) by {
        reveal_with_fuel(pow36, 11);
    }
    assert(pow36(30) == 48873677980689257489322752273774603865660850176) by {
        reveal_with_fuel(pow36, 11);
    }
    assert(pow36(40) == 178689910246017054531432477289437798228285773001601743140683776) by {
        reveal_with_fuel(pow36, 11);
    }
    assert(pow36(50)
        == 653318623500070906096690267158057820537143710472954871543071966369497141477376) by {
        reveal_with_fuel(pow36, 11);
    }
}

/// Reading the digits of `n` back in base 36 gives `n`.
pub proof fn lemma_digits_value(n: nat)
    ensures
        base36_value(digits(n)) == n,
    decreases n,
{
    if n != 0 {
        lemma_digits_value(n / 36);
        let d = digits(n);
        assert(d.drop_last() =~= digits(n / 36));
        assert(digit_of(symbol((n % 36) as int)) == n % 36);
    }
}

/// The identifier determines the number: two numbers with one identifier are equal.
pub proof fn lemma_base36_injective(a: nat, b: nat)
    requires
        base36(a) == base36(b),
    ensures
        a == b,
{
    lemma_digits_value(a);
    lemma_digits_value(b);
    lemma_digits_leading(a);
    lemma_digits_leading(b);
    if a == 0 && b != 0 {
        assert(base36(a)[0] == 'a');
        assert(digits(b).len() == 1);
        assert(digits(b)[0] != 'a');
    }
    if b == 0 && a != 0 {
        assert(base36(b)[0] == 'a');
        assert(digits(a).len() == 1);
        assert(digits(a)[0] != 'a');
    }
}

/// A digit string never starts with the symbol for zero.
proof fn lemma_digits_leading(n: nat)
    ensures
        n > 0 ==> digits(n).len() > 0 && digits(n)[0] != symbol(0),
    decreases n,
{
    if n != 0 {
        lemma_digits_leading(n / 36);
        if n / 36 == 0 {
            assert(digits(n / 36).len() == 0);
            assert(digits(n)[0] == symbol((n % 36) as int));
        } else {
            assert(digits(n)[0] == digits(n / 36)[0]);
        }
    }
}

/// Big-endian reading is one-to-one on byte strings of one length.
proof fn lemma_be_value_injective(a: Seq<u8>, b: Seq<u8>)
    requires
        a.len() == b.len(),
        be_value(a) == be_value(b),
    ensures
        a == b,
    decreases a.len(),
{
    if a.len() != 0 {
        lemma_be_value_injective(a.drop_last(), b.drop_last());
        assert(a =~= a.drop_last().push(a.last()));
        assert(b =~= b.drop_last().push(b.last()));
    }
}

/// Different digests have different identifiers.
pub proof fn lemma_identifier_determines_digest(a: Seq<u8>, b: Seq<u8>)
    requires
        a.len() == b.len(),
        base36(be_value(a)) == base36(be_value(b)),
    ensures
        a == b,
{
    lemma_base36_injective(be_value(a), be_value(b));
    lemma_be_value_injective(a, b);
}

/// A byte string denotes zero exactly when all its bytes are zero.
proof fn lemma_be_value_zero(bytes: Seq<u8>)
    ensures
        be_value(bytes) == 0 <==> forall|i: int| 0 <= i < bytes.len() ==> bytes[i] == 0,
    decreases bytes.len(),
{
    if bytes.len() != 0 {
        let init = bytes.drop_last();
        lemma_be_value_zero(init);
        if be_value(bytes) == 0 {
            assert forall|i: int| 0 <= i < bytes.len() implies bytes[i] == 0 by {
                if i < init.len() {
                    assert(init[i] == bytes[i]);
                }
            }
        } else {
            if forall|i: int| 0 <= i < bytes.len() ==> bytes[i] == 0 {
                assert forall|i: int| 0 <= i < init.len() implies init[i] == 0 by {
                    assert(init[i] == bytes[i]);
                }
            }
        }
    }
}

/// Whether the number held in `num` is zero.
fn is_zero(num: &[u8; 32]) -> (z: bool)
    ensures
        z == (be_value(num@) == 0),
{
    let mut i: usize = 0;
    while i < 32
        invariant
            i <= 32,
            forall|j: int| 0 <= j < i ==> num@[j] == 0,
        decreases 32 - i,
    {
        if num[i] != 0 {
            proof {
                lemma_be_value_zero(num@);
            }
            return false;
        }
        i += 1;
    }
    proof {
        lemma_be_value_zero(num@);
    }
    true
}

/// Divides the number held in `num` by 36 in place and returns the remainder.
fn divide_by_36(num: &mut [u8; 32]) -> (rem: u8)
    ensures
        be_value(final(num)@) == be_value(old(num)@) / 36,
        rem == be_value(old(num)@) % 36,
{
    let ghost before = num@;
    let mut rem: u16 = 0;
    let mut i: usize = 0;
    assert(num@.take(0) =~= Seq::<u8>::empty());
    while i < 32
        invariant
            i <= 32,
            rem < 36,
            before.len() == 32,
            num@.len() == 32,
            forall|j: int| i <= j < 32 ==> num@[j] == before[j],
            be_value(before.take(i as int)) == 36 * be_value(num@.take(i as int)) + rem,
        decreases 32 - i,
    {
        let ghost quotient = be_value(num@.take(i as int));
        let ghost prior = num@;
        let acc: u16 = rem * 256 + num[i] as u16;
        let q: u16 = acc / 36;
        let r: u16 = acc % 36;
        num[i] = q as u8;
        proof {
            assert(before.take(i + 1).drop_last() =~= before.take(i as int));
            assert(num@.take(i + 1).drop_last() =~= prior.take(i as int));
            assert(be_value(before.take(i + 1)) == be_value(before.take(i as int)) * 256
                + before[i as int]);
            assert(be_value(num@.take(i + 1)) == quotient * 256 + q);
            assert(acc == 36 * q + r);
        }
        rem = r;
        i += 1;
    }
    proof {
        assert(before.take(32) =~= before);
        assert(num@.take(32) =~= num@);
        let v = be_value(before) as int;
        let w = be_value(num@) as int;
        assert(v == 36 * w + rem);
        assert(v / 36 == w && v % 36 == rem as int) by (nonlinear_arith)
            requires
                v == 36 * w + rem,
                0 <= rem < 36,
        ;
    }
    rem as u8
}

/// Encodes a 256-bit digest as its base-36 identifier.
///
/// The digest is read as a big-endian number. The all-zero digest gives the
/// one-symbol identifier `a`; no other identifier starts with `a`.
pub fn encode_256bit_base36(input: &[u8; 32]) -> (out: String)
    ensures
        out@ == base36(be_value(input@)),
        1 <= out@.len() <= 50,
        forall|i: int| 0 <= i < out@.len() ==> in_alphabet(#[trigger] out@[i]),
{
    let ghost n = be_value(input@);
    let mut num: [u8; 32] = *input;
    let mut low: Vec<char> = Vec::new();
    assert(digits(n) =~= digits(be_value(num@)) + low@.reverse());
    while !is_zero(&num)
        invariant
            digits(n) == digits(be_value(num@)) + low@.reverse(),
        decreases be_value(num@),
    {
        let ghost v = be_value(num@);
        let ghost prior = low@;
        let rem = divide_by_36(&mut num);
        let c = alphabet_symbol(rem);
        low.push(c);
        proof {
            assert(low@.reverse() =~= seq![c] + prior.reverse());
            assert(digits(v) == digits(v / 36).push(c));
            assert(digits(v) + prior.reverse() =~= digits(v / 36) + low@.reverse());
        }
    }
    proof {
        assert(digits(n) =~= low@.reverse());
        lemma_digits_in_alphabet(n);
        lemma_be_value_bound(input@);
        lemma_digest_range();
        lemma_digits_len(n, 50);
    }
    if low.len() == 0 {
        low.push(alphabet_symbol(0));
        assert(low@.reverse() =~= seq![symbol(0)]);
    }
    let mut out = String::new();
    let mut k: usize = low.len();
    while k > 0
        invariant
            k <= low.len(),
            out@.len() == low.len() - k,
            forall|j: int| 0 <= j < out@.len() ==> out@[j] == low@[low.len() - 1 - j],
        decreases k,
    {
        k -= 1;
        push_char(&mut out, low[k]);
    }
    assert(out@ =~= low@.reverse());
    out
}

} // verus!

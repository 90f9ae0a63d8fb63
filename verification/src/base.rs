//! Mathematical model of the base-N rendering step.
//!
//! An alphabet is an ordered sequence of symbols; the index of a symbol is
//! its digit value in base `n`, where `n` is the alphabet's length. A
//! non-negative integer is rendered as its base-`n` digits, most significant
//! first, each digit replaced by the alphabet symbol at that index. Decoding
//! maps each symbol back to the index of its first occurrence in the
//! alphabet (the linear first-match policy) and accumulates positionally.
//! The lemmas here establish that decoding inverts encoding on distinct
//! alphabets, that a prefix of zero-value symbols does not change the
//! decoded value, and that a prefix of a string never decodes to more than
//! the whole string does.

use vstd::prelude::*;

verus! {

use vstd::arithmetic::div_mod::{lemma_div_decreases, lemma_fundamental_div_mod};
use vstd::arithmetic::mul::lemma_mul_inequality;

/// No symbol occurs twice.
pub open spec fn distinct_chars(s: Seq<char>) -> bool {
    forall|i: int, j: int| 0 <= i < j < s.len() ==> s[i] != s[j]
}

/// Index of the first occurrence of `c` in `s`, or `s.len()` when `c` does
/// not occur: the digit value of a symbol under the first-match policy.
pub open spec fn first_index_of(s: Seq<char>, c: char) -> nat
    decreases s.len(),
{
    if s.len() == 0 {
        0
    } else if s[0] == c {
        0
    } else {
        1 + first_index_of(s.drop_first(), c)
    }
}

/// The base-`n` digits of `x`, most significant first. Every value has at
/// least one digit; `0` is the single digit `0`.
pub open spec fn nat_digits(x: nat, n: nat) -> Seq<nat>
    decreases x,
    when n >= 2
    via nat_digits_decreases
{
    if x < n {
        seq![x]
    } else {
        nat_digits(x / n, n).push(x % n)
    }
}

#[via_fn]
proof fn nat_digits_decreases(x: nat, n: nat) {
    if x >= n {
        lemma_div_decreases(x as int, n as int);
    }
}

/// The rendering of `x` over the alphabet: its digits as symbols.
pub open spec fn encoded_chars(alpha: Seq<char>, x: nat) -> Seq<char> {
    nat_digits(x, alpha.len()).map_values(|d: nat| alpha[d as int])
}

/// The value a string of symbols decodes to, by Horner's rule over the
/// symbols' first-match indices in the alphabet.
pub open spec fn base_value(alpha: Seq<char>, s: Seq<char>) -> nat
    decreases s.len(),
{
    if s.len() == 0 {
        0
    } else {
        base_value(alpha, s.drop_last()) * alpha.len() + first_index_of(alpha, s.last())
    }
}

/// `body` extended on the left with copies of the alphabet's first symbol
/// up to length `m`; `body` unchanged when it is already long enough.
pub open spec fn left_padded(alpha: Seq<char>, body: Seq<char>, m: nat) -> Seq<char> {
    if body.len() >= m {
        body
    } else {
        Seq::new((m - body.len()) as nat, |i: int| alpha[0]) + body
    }
}

/// The first-match index is never past the end; when it is inside the
/// string it points at the symbol, with no earlier occurrence; when it is
/// the length, the symbol does not occur.
pub proof fn lemma_first_index_of(s: Seq<char>, c: char)
    ensures
        first_index_of(s, c) <= s.len(),
        first_index_of(s, c) < s.len() ==> s[first_index_of(s, c) as int] == c,
        forall|k: int| 0 <= k < first_index_of(s, c) && k < s.len() ==> s[k] != c,
        first_index_of(s, c) == s.len() ==> forall|k: int| 0 <= k < s.len() ==> s[k] != c,
    decreases s.len(),
{
    if s.len() == 0 || s[0] == c {
    } else {
        lemma_first_index_of(s.drop_first(), c);
        let fi = first_index_of(s, c);
        assert forall|k: int| 0 <= k < fi && k < s.len() implies s[k] != c by {
            if k > 0 {
                assert(s.drop_first()[k - 1] == s[k]);
            }
        }
        if fi == s.len() {
            assert forall|k: int| 0 <= k < s.len() implies s[k] != c by {
                if k > 0 {
                    assert(s.drop_first()[k - 1] == s[k]);
                }
            }
        }
    }
}

/// A symbol found at position `j` after a scan that ruled out all earlier
/// positions is the first occurrence.
pub proof fn lemma_first_index_found(s: Seq<char>, c: char, j: int)
    requires
        0 <= j < s.len(),
        s[j] == c,
        forall|k: int| 0 <= k < j ==> s[k] != c,
    ensures
        first_index_of(s, c) == j,
{
    lemma_first_index_of(s, c);
}

/// On a distinct alphabet, each symbol's digit value is its own index.
pub proof fn lemma_first_index_self(alpha: Seq<char>, d: int)
    requires
        distinct_chars(alpha),
        0 <= d < alpha.len(),
    ensures
        first_index_of(alpha, alpha[d]) == d,
{
    lemma_first_index_found(alpha, alpha[d], d);
}

/// Appending one symbol multiplies the decoded value by the base and adds
/// the symbol's digit value.
pub proof fn lemma_base_value_push(alpha: Seq<char>, s: Seq<char>, c: char)
    ensures
        base_value(alpha, s.push(c)) == base_value(alpha, s) * alpha.len() + first_index_of(
            alpha,
            c,
        ),
{
    assert(s.push(c).drop_last() =~= s);
    assert(s.push(c).last() == c);
}

/// Every digit is below the base, and there is at least one digit.
pub proof fn lemma_nat_digits_in_range(x: nat, n: nat)
    requires
        n >= 2,
    ensures
        nat_digits(x, n).len() >= 1,
        forall|i: int| 0 <= i < nat_digits(x, n).len() ==> nat_digits(x, n)[i] < n,
    decreases x,
{
    if x < n {
    } else {
        lemma_div_decreases(x as int, n as int);
        lemma_nat_digits_in_range(x / n, n);
        assert forall|i: int| 0 <= i < nat_digits(x, n).len() implies nat_digits(x, n)[i] < n by {
            if i < nat_digits(x / n, n).len() {
                assert(nat_digits(x, n)[i] == nat_digits(x / n, n)[i]);
            }
        }
    }
}

/// Decoding inverts encoding: on a distinct alphabet, the rendering of `x`
/// uses only alphabet symbols and decodes back to `x`.
pub proof fn lemma_encoded_value(alpha: Seq<char>, x: nat)
    requires
        alpha.len() >= 2,
        distinct_chars(alpha),
    ensures
        encoded_chars(alpha, x).len() >= 1,
        forall|i: int|
            0 <= i < encoded_chars(alpha, x).len() ==> #[trigger] first_index_of(
                alpha,
                encoded_chars(alpha, x)[i],
            ) < alpha.len(),
        base_value(alpha, encoded_chars(alpha, x)) == x,
    decreases x,
{
    let n = alpha.len();
    lemma_nat_digits_in_range(x, n);
    if x < n {
        let enc = encoded_chars(alpha, x);
        assert(enc =~= seq![alpha[x as int]]);
        assert(enc.drop_last() =~= Seq::<char>::empty());
        assert(base_value(alpha, enc.drop_last()) == 0);
        lemma_first_index_self(alpha, x as int);
        assert(enc.last() == alpha[x as int]);
        assert(base_value(alpha, enc) == base_value(alpha, enc.drop_last()) * alpha.len()
            + first_index_of(alpha, enc.last()));
    } else {
        lemma_div_decreases(x as int, n as int);
        lemma_encoded_value(alpha, x / n);
        let d = x % n;
        assert(encoded_chars(alpha, x) =~= encoded_chars(alpha, x / n).push(alpha[d as int]));
        lemma_base_value_push(alpha, encoded_chars(alpha, x / n), alpha[d as int]);
        lemma_first_index_self(alpha, d as int);
        lemma_fundamental_div_mod(x as int, n as int);
        assert forall|i: int|
            0 <= i < encoded_chars(alpha, x).len() implies first_index_of(
            alpha,
            encoded_chars(alpha, x)[i],
        ) < alpha.len() by {
            if i < encoded_chars(alpha, x / n).len() {
                assert(encoded_chars(alpha, x)[i] == encoded_chars(alpha, x / n)[i]);
            }
        }
    }
}

/// A string of copies of the alphabet's first symbol decodes to zero.
proof fn lemma_zero_prefix_value(alpha: Seq<char>, zs: Seq<char>)
    requires
        alpha.len() >= 1,
        forall|i: int| 0 <= i < zs.len() ==> zs[i] == alpha[0],
    ensures
        base_value(alpha, zs) == 0,
    decreases zs.len(),
{
    if zs.len() > 0 {
        lemma_zero_prefix_value(alpha, zs.drop_last());
        assert(base_value(alpha, zs.drop_last()) == 0);
        assert(zs.last() == alpha[0]);
        lemma_first_index_found(alpha, alpha[0], 0);
        assert(first_index_of(alpha, zs.last()) == 0);
        assert(base_value(alpha, zs) == base_value(alpha, zs.drop_last()) * alpha.len()
            + first_index_of(alpha, zs.last()));
    }
}

/// A prefix of copies of the alphabet's first symbol does not change the
/// decoded value.
proof fn lemma_prefix_zeros_value(alpha: Seq<char>, zs: Seq<char>, s: Seq<char>)
    requires
        alpha.len() >= 1,
        forall|i: int| 0 <= i < zs.len() ==> zs[i] == alpha[0],
    ensures
        base_value(alpha, zs + s) == base_value(alpha, s),
    decreases s.len(),
{
    if s.len() == 0 {
        assert(zs + s =~= zs);
        lemma_zero_prefix_value(alpha, zs);
    } else {
        lemma_prefix_zeros_value(alpha, zs, s.drop_last());
        assert(zs + s =~= (zs + s.drop_last()).push(s.last()));
        lemma_base_value_push(alpha, zs + s.drop_last(), s.last());
        assert(s =~= s.drop_last().push(s.last()));
        lemma_base_value_push(alpha, s.drop_last(), s.last());
    }
}

/// Padding on the left with the alphabet's first symbol preserves the
/// decoded value, whatever the requested length.
pub proof fn lemma_padding_preserves_value(alpha: Seq<char>, body: Seq<char>, m: nat)
    requires
        alpha.len() >= 1,
    ensures
        base_value(alpha, left_padded(alpha, body, m)) == base_value(alpha, body),
        left_padded(alpha, body, m).len() == if body.len() >= m {
            body.len()
        } else {
            m
        },
{
    if body.len() < m {
        let zs = Seq::new((m - body.len()) as nat, |i: int| alpha[0]);
        lemma_prefix_zeros_value(alpha, zs, body);
    }
}

/// A string never decodes to less than any of its prefixes: each further
/// symbol multiplies the prefix's value by the base and adds a digit.
pub proof fn lemma_base_value_prefix(alpha: Seq<char>, s: Seq<char>, j: int)
    requires
        alpha.len() >= 1,
        0 <= j <= s.len(),
    ensures
        base_value(alpha, s.take(j)) <= base_value(alpha, s),
    decreases s.len() - j,
{
    if j == s.len() {
        assert(s.take(j) =~= s);
    } else {
        lemma_base_value_prefix(alpha, s, j + 1);
        let t = s.take(j + 1);
        assert(t.drop_last() =~= s.take(j));
        let v = base_value(alpha, s.take(j));
        lemma_mul_inequality(1, alpha.len() as int, v as int);
        assert(v * alpha.len() == alpha.len() * v) by {
            vstd::arithmetic::mul::lemma_mul_is_commutative(v as int, alpha.len() as int);
        }
    }
}

} // verus!

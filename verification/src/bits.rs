//! Bit-level model of the codec's permutation step.
//!
//! The codec relabels the low `b` bits of a 64-bit word through a table of
//! target positions, walked in reverse order. With the identity table that
//! the constructor derives, source bit `i` lands on target bit `b - 1 - i`,
//! so the step reverses the low `b` bits and leaves the high bits alone.
//! `enc_partial` and `dec_partial` give the value accumulated by the two
//! directions' loops after their first `i` iterations; `rev_low` is the
//! completed transform. The lemmas characterize each bit of these values and
//! derive the facts the codec needs: the transform stays within the mask,
//! both directions compute the same function, and the function is an
//! involution on the masked range.

use vstd::prelude::*;

verus! {

/// True when bit `i` of `x` is set.
pub open spec fn bit_set(x: u64, i: u64) -> bool {
    x & (1u64 << i) != 0
}

/// Value accumulated by the encode-direction loop after its first `i`
/// iterations, for an identity table of length `b`: each source bit
/// `j < i` that is set in `n` contributes target bit `b - 1 - j`.
pub open spec fn enc_partial(n: u64, b: nat, i: nat) -> u64
    recommends
        i <= b,
        b < 64,
    decreases i,
{
    if i == 0 {
        0u64
    } else {
        enc_partial(n, b, (i - 1) as nat) | (if bit_set(n, (i - 1) as u64) {
            1u64 << ((b - i) as u64)
        } else {
            0u64
        })
    }
}

/// Value accumulated by the decode-direction loop after its first `i`
/// iterations, for an identity table of length `b`: target bit `j < i` of
/// the result is set when source bit `b - 1 - j` is set in `n`.
pub open spec fn dec_partial(n: u64, b: nat, i: nat) -> u64
    recommends
        i <= b,
        b < 64,
    decreases i,
{
    if i == 0 {
        0u64
    } else {
        dec_partial(n, b, (i - 1) as nat) | (if bit_set(n, (b - i) as u64) {
            1u64 << ((i - 1) as u64)
        } else {
            0u64
        })
    }
}

/// The completed transform: the low `b` bits of `n` in reverse order.
pub open spec fn rev_low(n: u64, b: nat) -> u64
    recommends
        b < 64,
{
    enc_partial(n, b, b)
}

/// A word is unchanged by an or with zero.
pub proof fn lemma_or_zero(x: u64)
    by (bit_vector)
    ensures
        x | 0u64 == x,
{
}

/// Masking twice is masking once.
pub proof fn lemma_and_mask_idem(x: u64, m: u64)
    by (bit_vector)
    ensures
        (x & m) & m == x & m,
{
}

/// Setting a bit of the block keeps a masked word masked.
pub proof fn lemma_or_stays_low(x: u64, t: u64, b: u64, m: u64)
    by (bit_vector)
    requires
        b < 64,
        t < b,
        m == (1u64 << b) - 1,
        x & m == x,
    ensures
        (x | (1u64 << t)) & m == x | (1u64 << t),
{
}

/// Recombining high bits with a masked word splits back into the same
/// parts.
pub proof fn lemma_high_low_parts(x: u64, r: u64, m: u64)
    by (bit_vector)
    requires
        r & m == r,
    ensures
        ((x & !m) | r) & !m == x & !m,
        ((x & !m) | r) & m == r,
{
}

/// A word is the union of its high and low parts.
pub proof fn lemma_recompose(x: u64, m: u64)
    by (bit_vector)
    ensures
        (x & !m) | (x & m) == x,
{
}

proof fn lemma_bit_zero(k: u64)
    by (bit_vector)
    requires
        k < 64,
    ensures
        !bit_set(0u64, k),
{
}

proof fn lemma_bit_or(x: u64, y: u64, k: u64)
    by (bit_vector)
    requires
        k < 64,
    ensures
        bit_set(x | y, k) == (bit_set(x, k) || bit_set(y, k)),
{
}

proof fn lemma_bit_single(j: u64, k: u64)
    by (bit_vector)
    requires
        j < 64,
        k < 64,
    ensures
        bit_set(1u64 << j, k) == (j == k),
{
}

proof fn lemma_bit_and(x: u64, y: u64, k: u64)
    by (bit_vector)
    requires
        k < 64,
    ensures
        bit_set(x & y, k) == (bit_set(x, k) && bit_set(y, k)),
{
}

proof fn lemma_mask_bit(b: u64, m: u64, k: u64)
    by (bit_vector)
    requires
        b < 64,
        k < 64,
        m == (1u64 << b) - 1,
    ensures
        bit_set(m, k) == (k < b),
{
}

proof fn lemma_shr_ext_step(x: u64, y: u64, i: u64, j: u64)
    by (bit_vector)
    requires
        i < 63,
        j == i + 1,
        x >> j == y >> j,
        (x & (1u64 << i) != 0) == (y & (1u64 << i) != 0),
    ensures
        x >> i == y >> i,
{
}

/// Words that agree on bits `i..64` agree when shifted right by `i`.
proof fn lemma_shr_ext_from(x: u64, y: u64, i: u64)
    requires
        i < 64,
        forall|k: u64| i <= k < 64 ==> (bit_set(x, k) <==> bit_set(y, k)),
    ensures
        x >> i == y >> i,
    decreases 64 - i,
{
    if i == 63 {
        assert(bit_set(x, 63u64) <==> bit_set(y, 63u64));
        assert(x >> 63 == y >> 63) by (bit_vector)
            requires
                (x & (1u64 << 63u64) != 0) == (y & (1u64 << 63u64) != 0),
        ;
    } else {
        lemma_shr_ext_from(x, y, (i + 1) as u64);
        assert(bit_set(x, i) <==> bit_set(y, i));
        lemma_shr_ext_step(x, y, i, (i + 1) as u64);
    }
}

/// Two words with the same 64 bits are the same word.
proof fn lemma_bit_ext(x: u64, y: u64)
    requires
        forall|k: u64| k < 64 ==> (bit_set(x, k) <==> bit_set(y, k)),
    ensures
        x == y,
{
    lemma_shr_ext_from(x, y, 0);
    assert(x >> 0u64 == x) by (bit_vector);
    assert(y >> 0u64 == y) by (bit_vector);
}

/// Bit `k` of the partial encode value is set exactly when `k` is the target
/// of an already processed source bit that is set in `n`.
proof fn lemma_enc_partial_bits(n: u64, b: nat, i: nat)
    requires
        i <= b,
        b < 64,
    ensures
        forall|k: u64|
            k < 64 ==> (bit_set(enc_partial(n, b, i), k) <==> (b - i <= k < b && bit_set(
                n,
                (b - 1 - k) as u64,
            ))),
    decreases i,
{
    if i == 0 {
        assert forall|k: u64| k < 64 implies !bit_set(enc_partial(n, b, 0), k) by {
            lemma_bit_zero(k);
        }
    } else {
        lemma_enc_partial_bits(n, b, (i - 1) as nat);
        let prev = enc_partial(n, b, (i - 1) as nat);
        let t: u64 = (b - i) as u64;
        let piece: u64 = if bit_set(n, (i - 1) as u64) {
            1u64 << t
        } else {
            0u64
        };
        assert forall|k: u64| k < 64 implies (bit_set(prev | piece, k) <==> (b - i <= k < b
            && bit_set(n, (b - 1 - k) as u64))) by {
            lemma_bit_or(prev, piece, k);
            lemma_bit_single(t, k);
            lemma_bit_zero(k);
            if k == t {
                assert(b - 1 - k == i - 1);
            }
        }
    }
}

/// Bit `k` of the partial decode value is set exactly when `k` is already
/// processed and its source bit `b - 1 - k` is set in `n`.
proof fn lemma_dec_partial_bits(n: u64, b: nat, i: nat)
    requires
        i <= b,
        b < 64,
    ensures
        forall|k: u64|
            k < 64 ==> (bit_set(dec_partial(n, b, i), k) <==> (k < i && bit_set(
                n,
                (b - 1 - k) as u64,
            ))),
    decreases i,
{
    if i == 0 {
        assert forall|k: u64| k < 64 implies !bit_set(dec_partial(n, b, 0), k) by {
            lemma_bit_zero(k);
        }
    } else {
        lemma_dec_partial_bits(n, b, (i - 1) as nat);
        let prev = dec_partial(n, b, (i - 1) as nat);
        let t: u64 = (i - 1) as u64;
        let piece: u64 = if bit_set(n, (b - i) as u64) {
            1u64 << t
        } else {
            0u64
        };
        assert forall|k: u64| k < 64 implies (bit_set(prev | piece, k) <==> (k < i && bit_set(
            n,
            (b - 1 - k) as u64,
        ))) by {
            lemma_bit_or(prev, piece, k);
            lemma_bit_single(t, k);
            lemma_bit_zero(k);
            if k == t {
                assert(b - 1 - k == b - i);
            }
        }
    }
}

/// Bit `k` of the completed transform is bit `b - 1 - k` of the input, for
/// `k` inside the block; bits outside the block are clear.
pub proof fn lemma_rev_low_bits(n: u64, b: nat)
    requires
        b < 64,
    ensures
        forall|k: u64|
            k < 64 ==> (bit_set(rev_low(n, b), k) <==> (k < b && bit_set(n, (b - 1 - k) as u64))),
{
    lemma_enc_partial_bits(n, b, b);
}

/// Both directions of the loop compute the same transform under the
/// identity table: reversing the low `b` bits.
pub proof fn lemma_dec_is_rev_low(n: u64, b: nat)
    requires
        b < 64,
    ensures
        dec_partial(n, b, b) == rev_low(n, b),
{
    lemma_dec_partial_bits(n, b, b);
    lemma_rev_low_bits(n, b);
    lemma_bit_ext(dec_partial(n, b, b), rev_low(n, b));
}

/// The completed transform stays within the block's mask.
pub proof fn lemma_rev_low_masked(n: u64, b: nat, m: u64)
    requires
        b < 64,
        m == (1u64 << (b as u64)) - 1,
    ensures
        rev_low(n, b) & m == rev_low(n, b),
        rev_low(n, b) <= m,
{
    let r = rev_low(n, b);
    lemma_rev_low_bits(n, b);
    assert forall|k: u64| k < 64 implies (bit_set(r & m, k) <==> bit_set(r, k)) by {
        lemma_bit_and(r, m, k);
        lemma_mask_bit(b as u64, m, k);
    }
    lemma_bit_ext(r & m, r);
    assert(r & m <= m) by (bit_vector);
}

/// On values within the mask, the transform is an involution: reversing the
/// low bits twice gives the input back.
pub proof fn lemma_rev_low_involution(n: u64, b: nat, m: u64)
    requires
        b < 64,
        m == (1u64 << (b as u64)) - 1,
        n & m == n,
    ensures
        rev_low(rev_low(n, b), b) == n,
{
    let r = rev_low(n, b);
    let bb: u64 = b as u64;
    lemma_rev_low_bits(n, b);
    lemma_rev_low_bits(r, b);
    assert forall|k: u64| k < 64 implies (bit_set(rev_low(r, b), k) <==> bit_set(n, k)) by {
        if k < b {
            assert(b - 1 - (b - 1 - k) == k);
        } else {
            assert(n & (1u64 << k) == 0) by (bit_vector)
                requires
                    bb <= k < 64,
                    bb < 64,
                    m == (1u64 << bb) - 1,
                    n & m == n,
            ;
        }
    }
    lemma_bit_ext(rev_low(r, b), n);
}

} // verus!

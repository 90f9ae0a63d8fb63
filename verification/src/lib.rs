//! A reversible numeric obfuscation codec.
//!
//! The codec turns a non-negative integer (say, a database row identifier)
//! into a short, non-sequential, URL-safe string, and reverses the transform
//! exactly. It is a pure, stateless bijection parameterized only by a fixed
//! configuration: an alphabet and a bit-block size. Encoding first relabels
//! the low-order bits of the value through a permutation table, then renders
//! the scrambled value in base `n` over the alphabet, where `n` is the
//! alphabet's length; decoding inverts both steps. The working integer width
//! is fixed at 64 bits so that encoded strings are portable across targets.

use vstd::prelude::*;

pub mod base;
pub mod bits;
pub mod err;

verus! {

use crate::base::{
    base_value,
    distinct_chars,
    encoded_chars,
    first_index_of,
    left_padded,
    lemma_base_value_prefix,
    lemma_encoded_value,
    lemma_first_index_found,
    lemma_first_index_of,
    lemma_nat_digits_in_range,
    lemma_padding_preserves_value,
};
use crate::bits::{
    bit_set,
    dec_partial,
    enc_partial,
    lemma_and_mask_idem,
    lemma_dec_is_rev_low,
    lemma_high_low_parts,
    lemma_or_stays_low,
    lemma_or_zero,
    lemma_recompose,
    lemma_rev_low_involution,
    lemma_rev_low_masked,
    rev_low,
};
use crate::err::ShortError;
use vstd::arithmetic::div_mod::lemma_div_decreases;

/// Relies on `String::push` of std: it appends the given character to the
/// end of the string.
pub assume_specification[ String::push ](s: &mut String, ch: char)
    ensures
        final(s)@ == old(s)@.push(ch),
;

/// The alphabet recommended as a default configuration.
pub const DEFAULT_ALPHABET: &'static str = "mn6j2c4rv8bpygw95z7hsdaetxuk3fq";

/// The block size recommended as a default configuration.
pub const DEFAULT_BLOCK_SIZE: usize = 24;

/// The minimum output length recommended as a default configuration.
pub const MIN_LENGTH: usize = 5;

/// A codec for url-safe string representations of integers. Immutable once
/// constructed: it holds the alphabet, the derived bit mask, and the derived
/// bit-permutation table, and never mutates them.
pub struct UrlEncoder {
    alphabet: Vec<char>,
    mask: u64,
    mapping: Vec<u64>,
}

/// The mathematical model of a codec: the alphabet's symbols, the
/// permutation table's target bit positions, and the derived mask.
pub struct CodecView {
    pub alphabet: Seq<char>,
    pub table: Seq<u64>,
    pub mask: u64,
}

impl View for UrlEncoder {
    type V = CodecView;

    closed spec fn view(&self) -> CodecView {
        CodecView { alphabet: self.alphabet@, table: self.mapping@, mask: self.mask }
    }
}

impl CodecView {
    /// Number of low-order bits subject to permutation.
    pub open spec fn block_size(self) -> nat {
        self.table.len()
    }

    /// The base of the positional rendering: the alphabet's length.
    pub open spec fn base(self) -> nat {
        self.alphabet.len()
    }

    /// The permutation table fits the working width, the mask isolates
    /// exactly the block, and every table entry targets a bit of the block.
    pub open spec fn table_wf(self) -> bool {
        &&& self.block_size() < 64
        &&& self.mask == (1u64 << (self.block_size() as u64)) - 1
        &&& forall|i: int| 0 <= i < self.table.len() ==> self.table[i] < self.table.len()
    }

    /// The table the constructor derives: each bit position mapped to
    /// itself. The permutation machinery is general, but this is the only
    /// table the shipped construction ever produces.
    pub open spec fn identity_table(self) -> bool {
        forall|i: int| 0 <= i < self.table.len() ==> self.table[i] == i
    }

    /// A usable configuration: a well-formed table and at least two symbols.
    pub open spec fn wf(self) -> bool {
        &&& self.table_wf()
        &&& self.base() >= 2
    }

    /// No symbol occurs twice in the alphabet. Decoding uses the linear
    /// first-match policy, so a repeated symbol would make some renderings
    /// decode to a different value than they were encoded from.
    pub open spec fn distinct_alphabet(self) -> bool {
        distinct_chars(self.alphabet)
    }

    /// The bit-permutation step under the identity table: the low block of
    /// `x` reversed bit for bit, the high bits passed through unchanged.
    /// Walking the identity table in reverse order pairs source bit `i`
    /// with target bit `block_size - 1 - i`.
    pub open spec fn permuted(self, x: u64) -> u64 {
        (x & !self.mask) | rev_low(x & self.mask, self.block_size())
    }

    /// Every symbol of `s` occurs in the alphabet.
    pub open spec fn all_in_alphabet(self, s: Seq<char>) -> bool {
        forall|i: int|
            0 <= i < s.len() ==> #[trigger] first_index_of(self.alphabet, s[i])
                < self.alphabet.len()
    }

    /// What encoding returns: the scrambled value rendered over the
    /// alphabet, left-padded with the alphabet's first symbol up to the
    /// requested minimum length.
    pub open spec fn encode_spec(self, x: u64, m: nat) -> Seq<char> {
        left_padded(self.alphabet, encoded_chars(self.alphabet, self.permuted(x) as nat), m)
    }

    /// What the base-N reading of a string yields: its positional value,
    /// unless a symbol is foreign to the alphabet or the value does not fit
    /// the working width.
    pub open spec fn debase_spec(self, s: Seq<char>) -> Result<u64, ShortError> {
        if !self.all_in_alphabet(s) {
            Err(ShortError::InvalidString)
        } else if base_value(self.alphabet, s) > u64::MAX {
            Err(ShortError::InvalidNumber)
        } else {
            Ok(base_value(self.alphabet, s) as u64)
        }
    }

    /// What decoding returns: the base-N reading of the string, unscrambled.
    pub open spec fn decode_spec(self, s: Seq<char>) -> Result<u64, ShortError> {
        match self.debase_spec(s) {
            Ok(v) => Ok(self.permuted(v)),
            Err(e) => Err(e),
        }
    }
}

impl UrlEncoder {
    /// Creates a new `UrlEncoder` decoder/encoder from an alphabet and a
    /// bit-block size. The caller supplies an alphabet of at least two
    /// symbols and a block size that fits the 64-bit working width; the
    /// derived permutation table is the identity mapping of bit positions.
    pub fn new(alp: &str, block: usize) -> (r: Self)
        requires
            2 <= alp@.len(),
            block < 64,
        ensures
            r@.wf(),
            r@.identity_table(),
            r@.alphabet == alp@,
            r@.block_size() == block,
    {
        let count: usize = alp.unicode_len();
        let mut alphabet: Vec<char> = Vec::new();
        let mut i: usize = 0;
        while i < count
            invariant
                i <= count,
                count == alp@.len(),
                alphabet@ == alp@.take(i as int),
            decreases count - i,
        {
            alphabet.push(alp.get_char(i));
            i += 1;
            assert(alphabet@ =~= alp@.take(i as int));
        }
        assert(alphabet@ =~= alp@);
        let mut mapping: Vec<u64> = Vec::new();
        let mut j: usize = 0;
        while j < block
            invariant
                j <= block,
                mapping@.len() == j,
                forall|k: int| 0 <= k < j ==> mapping@[k] == k,
            decreases block - j,
        {
            mapping.push(j as u64);
            j += 1;
        }
        let bb: u64 = block as u64;
        let shifted: u64 = 1u64 << bb;
        assert(shifted >= 1) by (bit_vector)
            requires
                bb < 64,
                shifted == 1u64 << bb,
        ;
        let mask: u64 = shifted - 1;
        UrlEncoder { alphabet, mask, mapping }
    }

    /// The bit-permutation step of encoding: scrambles the low block of `n`
    /// through the table, walked in reverse order, and passes the high bits
    /// through unchanged, whatever the table holds.
    fn encode(&self, n: u64) -> (r: u64)
        requires
            self@.table_wf(),
        ensures
            r & !self@.mask == n & !self@.mask,
            self@.identity_table() ==> r == self@.permuted(n),
    {
        proof {
            lemma_and_mask_idem(n, self.mask);
        }
        let low = self._encode(n & self.mask);
        proof {
            lemma_high_low_parts(n, low, self.mask);
        }
        (n & !self.mask) | low
    }

    /// The scrambling of an already masked value: for each source bit `i`
    /// set in `n`, sets the target bit the reversed table pairs with `i`.
    fn _encode(&self, n: u64) -> (r: u64)
        requires
            self@.table_wf(),
            n & self@.mask == n,
        ensures
            r & self@.mask == r,
            self@.identity_table() ==> r == rev_low(n, self@.block_size()),
    {
        let b: usize = self.mapping.len();
        let mut result: u64 = 0;
        let mut i: usize = 0;
        proof {
            lemma_or_zero(0u64);
            assert(0u64 & self@.mask == 0u64) by (bit_vector);
        }
        while i < b
            invariant
                i <= b,
                b == self@.block_size(),
                self@.table_wf(),
                n & self@.mask == n,
                result & self@.mask == result,
                self@.identity_table() ==> result == enc_partial(n, self@.block_size(), i as nat),
            decreases b - i,
        {
            let target: u64 = self.mapping[b - 1 - i];
            let ghost prev: u64 = result;
            if n & (1u64 << (i as u64)) != 0 {
                proof {
                    lemma_or_stays_low(result, target, b as u64, self.mask);
                }
                result = result | (1u64 << target);
            }
            proof {
                if self@.identity_table() {
                    assert(target == b - 1 - i);
                    if bit_set(n, i as u64) {
                        assert(result == enc_partial(n, self@.block_size(), (i + 1) as nat));
                    } else {
                        lemma_or_zero(prev);
                        assert(result == enc_partial(n, self@.block_size(), (i + 1) as nat));
                    }
                }
            }
            i += 1;
        }
        result
    }

    /// The bit-permutation step of decoding: the exact inverse walk of the
    /// table, with source and target roles swapped; high bits untouched.
    fn decode(&self, n: u64) -> (r: u64)
        requires
            self@.table_wf(),
        ensures
            r & !self@.mask == n & !self@.mask,
            self@.identity_table() ==> r == self@.permuted(n),
    {
        proof {
            lemma_and_mask_idem(n, self.mask);
        }
        let low = self._decode(n & self.mask);
        proof {
            lemma_high_low_parts(n, low, self.mask);
            if self@.identity_table() {
                lemma_dec_is_rev_low(n & self.mask, self@.block_size());
            }
        }
        (n & !self.mask) | low
    }

    /// The unscrambling of an already masked value: for each target bit the
    /// reversed table pairs with `i`, if it is set in `n`, sets source bit
    /// `i` of the result.
    fn _decode(&self, n: u64) -> (r: u64)
        requires
            self@.table_wf(),
            n & self@.mask == n,
        ensures
            r & self@.mask == r,
            self@.identity_table() ==> r == dec_partial(n, self@.block_size(), self@.block_size()),
    {
        let b: usize = self.mapping.len();
        let mut result: u64 = 0;
        let mut i: usize = 0;
        proof {
            assert(0u64 & self@.mask == 0u64) by (bit_vector);
        }
        while i < b
            invariant
                i <= b,
                b == self@.block_size(),
                self@.table_wf(),
                n & self@.mask == n,
                result & self@.mask == result,
                self@.identity_table() ==> result == dec_partial(n, self@.block_size(), i as nat),
            decreases b - i,
        {
            let target: u64 = self.mapping[b - 1 - i];
            let ghost prev: u64 = result;
            if n & (1u64 << target) != 0 {
                proof {
                    lemma_or_stays_low(result, i as u64, b as u64, self.mask);
                }
                result = result | (1u64 << (i as u64));
            }
            proof {
                if self@.identity_table() {
                    assert(target == b - 1 - i);
                    if bit_set(n, target) {
                        assert(result == dec_partial(n, self@.block_size(), (i + 1) as nat));
                    } else {
                        lemma_or_zero(prev);
                        assert(result == dec_partial(n, self@.block_size(), (i + 1) as nat));
                    }
                }
            }
            i += 1;
        }
        result
    }
}

impl UrlEncoder {
    /// Index of the first occurrence of `c` in the alphabet, its digit
    /// value under the first-match policy; `None` when `c` is foreign.
    fn position_of(&self, c: char) -> (r: Option<usize>)
        ensures
            match r {
                Some(j) => j < self@.alphabet.len() && j == first_index_of(self@.alphabet, c),
                None => first_index_of(self@.alphabet, c) == self@.alphabet.len(),
            },
    {
        let count: usize = self.alphabet.len();
        let mut j: usize = 0;
        while j < count
            invariant
                j <= count,
                count == self@.alphabet.len(),
                forall|k: int| 0 <= k < j ==> self@.alphabet[k] != c,
            decreases count - j,
        {
            if self.alphabet[j] == c {
                proof {
                    lemma_first_index_found(self@.alphabet, c, j as int);
                }
                return Some(j);
            }
            j += 1;
        }
        proof {
            lemma_first_index_of(self@.alphabet, c);
        }
        None
    }

    /// Renders a value as alphabet symbols in base `n`, most significant
    /// symbol first, by repeated division.
    fn _enbase(&self, x: u64) -> (r: Vec<char>)
        requires
            2 <= self@.base(),
        ensures
            r@ == encoded_chars(self@.alphabet, x as nat),
    {
        let count: usize = self.alphabet.len();
        let n: u64 = count as u64;
        let mut rt: Vec<char> = Vec::new();
        let mut xx: u64 = x;
        while xx >= n
            invariant
                count == self@.base(),
                n == count as u64,
                2 <= n,
                encoded_chars(self@.alphabet, x as nat) == encoded_chars(
                    self@.alphabet,
                    xx as nat,
                ) + rt@,
            decreases xx,
        {
            let d: u64 = xx % n;
            let ghost old_rt = rt@;
            let ghost old_xx = xx;
            let symbol: char = self.alphabet[d as usize];
            rt.insert(0, symbol);
            xx = xx / n;
            proof {
                lemma_div_decreases(old_xx as int, n as int);
                assert(symbol == self@.alphabet[d as int]);
                assert(encoded_chars(self@.alphabet, old_xx as nat) =~= encoded_chars(
                    self@.alphabet,
                    xx as nat,
                ).push(symbol));
                assert(rt@ =~= seq![symbol] + old_rt);
                assert(encoded_chars(self@.alphabet, xx as nat).push(symbol) + old_rt
                    =~= encoded_chars(self@.alphabet, xx as nat) + rt@);
            }
        }
        let ghost old_rt = rt@;
        let symbol: char = self.alphabet[xx as usize];
        rt.insert(0, symbol);
        proof {
            assert(encoded_chars(self@.alphabet, xx as nat) =~= seq![symbol]);
            assert(rt@ =~= encoded_chars(self@.alphabet, xx as nat) + old_rt);
        }
        rt
    }

    /// Renders a value and left-pads the rendering with the alphabet's
    /// first symbol up to the requested minimum length.
    fn enbase(&self, x: u64, min_length: usize) -> (r: String)
        requires
            2 <= self@.base(),
        ensures
            r@ == left_padded(
                self@.alphabet,
                encoded_chars(self@.alphabet, x as nat),
                min_length as nat,
            ),
    {
        let body = self._enbase(x);
        let pad_num: usize = if min_length < body.len() {
            0
        } else {
            min_length - body.len()
        };
        let mut out = String::new();
        let mut pad: usize = 0;
        while pad < pad_num
            invariant
                pad <= pad_num,
                2 <= self@.base(),
                out@.len() == pad,
                forall|k: int| 0 <= k < pad ==> out@[k] == self@.alphabet[0],
            decreases pad_num - pad,
        {
            out.push(self.alphabet[0]);
            pad += 1;
        }
        let ghost pads = out@;
        let mut i: usize = 0;
        while i < body.len()
            invariant
                i <= body@.len(),
                out@ == pads + body@.take(i as int),
            decreases body@.len() - i,
        {
            let ghost old_out = out@;
            out.push(body[i]);
            i += 1;
            proof {
                assert(out@ =~= pads + body@.take(i as int));
            }
        }
        proof {
            assert(body@.take(body@.len() as int) =~= body@);
            if body@.len() >= min_length {
                assert(out@ =~= body@);
            } else {
                assert(pads =~= Seq::new((min_length - body@.len()) as nat,
                    |k: int| self@.alphabet[0],
                ));
            }
        }
        out
    }

    /// Reads a string of alphabet symbols as a base-N value, scanning the
    /// symbols' digit values and accumulating positionally. Fails with
    /// `InvalidString` when any symbol is foreign to the alphabet, and with
    /// `InvalidNumber` when the value does not fit the working width.
    fn debase(&self, x: &str) -> (r: Result<u64, ShortError>)
        requires
            2 <= self@.base(),
        ensures
            r == self@.debase_spec(x@),
    {
        let count: usize = x.unicode_len();
        let mut digits: Vec<u64> = Vec::new();
        let mut i: usize = 0;
        while i < count
            invariant
                i <= count,
                count == x@.len(),
                2 <= self@.base(),
                digits@.len() == i,
                forall|k: int|
                    0 <= k < i ==> #[trigger] first_index_of(self@.alphabet, x@[k])
                        < self@.alphabet.len() && digits@[k] == first_index_of(
                        self@.alphabet,
                        x@[k],
                    ),
            decreases count - i,
        {
            let c = x.get_char(i);
            let ghost old_digits = digits@;
            match self.position_of(c) {
                Some(j) => {
                    digits.push(j as u64);
                    proof {
                        assert forall|k: int|
                            0 <= k < i + 1 implies #[trigger] first_index_of(
                            self@.alphabet,
                            x@[k],
                        ) < self@.alphabet.len() && digits@[k] == first_index_of(
                            self@.alphabet,
                            x@[k],
                        ) by {
                            if k < i {
                                assert(digits@[k] == old_digits[k]);
                            } else {
                                assert(digits@[k] == j as u64);
                                assert(x@[k] == c);
                            }
                        }
                    }
                },
                None => {
                    return Err(ShortError::InvalidString);
                },
            }
            i += 1;
        }
        let n: u64 = self.alphabet.len() as u64;
        let mut result: u64 = 0;
        let mut i2: usize = 0;
        proof {
            assert(base_value(self@.alphabet, x@.take(0)) == 0) by {
                assert(x@.take(0) =~= Seq::<char>::empty());
            }
        }
        while i2 < count
            invariant
                i2 <= count,
                count == x@.len(),
                n == self@.base(),
                2 <= n,
                digits@.len() == count,
                forall|k: int|
                    0 <= k < count ==> #[trigger] first_index_of(self@.alphabet, x@[k])
                        < self@.alphabet.len() && digits@[k] == first_index_of(
                        self@.alphabet,
                        x@[k],
                    ),
                result == base_value(self@.alphabet, x@.take(i2 as int)),
            decreases count - i2,
        {
            let d: u64 = digits[i2];
            let ghost prefix = x@.take(i2 as int);
            let ghost longer = x@.take(i2 + 1);
            proof {
                assert(longer.drop_last() =~= prefix);
                assert(longer.last() == x@[i2 as int]);
                assert(base_value(self@.alphabet, longer) == base_value(self@.alphabet, prefix)
                    * self@.base() + first_index_of(self@.alphabet, x@[i2 as int]));
                lemma_base_value_prefix(self@.alphabet, x@, i2 + 1);
            }
            let scaled: u64 = match result.checked_mul(n) {
                Some(s) => s,
                None => {
                    return Err(ShortError::InvalidNumber);
                },
            };
            let next: u64 = match scaled.checked_add(d) {
                Some(s) => s,
                None => {
                    return Err(ShortError::InvalidNumber);
                },
            };
            result = next;
            i2 += 1;
        }
        proof {
            assert(x@.take(count as int) =~= x@);
        }
        Ok(result)
    }

    /// Encodes a number into a string based on the `UrlEncoder`: the
    /// bit-permutation step scrambles the value, the base-N step renders
    /// it, and the rendering is left-padded with the alphabet's first
    /// symbol up to `min_length`. Encoding never fails, and the output is
    /// never shorter than `min_length`.
    pub fn encode_url(&self, n: u64, min_length: usize) -> (r: String)
        requires
            self@.wf(),
            self@.identity_table(),
        ensures
            r@ == self@.encode_spec(n, min_length as nat),
            r@.len() >= min_length,
            r@.len() >= 1,
    {
        let scrambled = self.encode(n);
        let r = self.enbase(scrambled, min_length);
        proof {
            lemma_nat_digits_in_range(self@.permuted(n) as nat, self@.base());
            lemma_padding_preserves_value(
                self@.alphabet,
                encoded_chars(self@.alphabet, self@.permuted(n) as nat),
                min_length as nat,
            );
        }
        r
    }

    /// Decodes a string into the number it was encoded from: the base-N
    /// step reads the string, the bit-permutation step unscrambles the
    /// value. Fails with `InvalidString` exactly when the string holds a
    /// symbol foreign to the alphabet, and with `InvalidNumber` exactly
    /// when the string's value does not fit the 64-bit working width.
    pub fn decode_url(&self, x: &str) -> (r: Result<u64, ShortError>)
        requires
            self@.wf(),
            self@.identity_table(),
        ensures
            r == self@.decode_spec(x@),
            r == Err::<u64, ShortError>(ShortError::InvalidString) <==> !self@.all_in_alphabet(
                x@,
            ),
    {
        match self.debase(x) {
            Ok(v) => Ok(self.decode(v)),
            Err(e) => Err(e),
        }
    }
}

/// The bit-permutation step is an involution, and it passes the bits above
/// the block through unchanged in both directions: unscrambling a scrambled
/// value gives the original back, whatever the block size.
pub proof fn lemma_permuted_involution(v: CodecView, x: u64)
    requires
        v.table_wf(),
    ensures
        v.permuted(v.permuted(x)) == x,
        v.permuted(x) & !v.mask == x & !v.mask,
{
    let m = v.mask;
    let b = v.block_size();
    let lo = x & m;
    let inner = rev_low(lo, b);
    lemma_rev_low_masked(lo, b, m);
    let p = v.permuted(x);
    lemma_high_low_parts(x, inner, m);
    assert(p & m == inner);
    assert(p & !m == x & !m);
    lemma_and_mask_idem(x, m);
    lemma_rev_low_involution(lo, b, m);
    assert(rev_low(p & m, b) == lo);
    lemma_high_low_parts(p, lo, m);
    lemma_recompose(x, m);
    assert(v.permuted(p) == (x & !m) | (x & m));
}

/// Round trip: decoding what was encoded gives the value back, for every
/// value of the working width and every requested minimum length, on a
/// distinct alphabet.
pub proof fn lemma_round_trip(v: CodecView, x: u64, m: nat)
    requires
        v.wf(),
        v.distinct_alphabet(),
    ensures
        v.decode_spec(v.encode_spec(x, m)) == Ok::<u64, ShortError>(x),
{
    let alpha = v.alphabet;
    let y = v.permuted(x);
    lemma_encoded_value(alpha, y as nat);
    let body = encoded_chars(alpha, y as nat);
    let s = left_padded(alpha, body, m);
    lemma_padding_preserves_value(alpha, body, m);
    lemma_first_index_found(alpha, alpha[0], 0);
    assert forall|i: int|
        0 <= i < s.len() implies #[trigger] first_index_of(alpha, s[i]) < alpha.len() by {
        if body.len() < m {
            let pad = m - body.len();
            if i < pad {
                assert(s[i] == alpha[0]);
            } else {
                assert(s[i] == body[i - pad]);
            }
        }
    }
    assert(v.all_in_alphabet(s));
    assert(base_value(alpha, s) == y);
    lemma_permuted_involution(v, x);
}

} // verus!
